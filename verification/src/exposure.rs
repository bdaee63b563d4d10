//! The conditional-exposure calculus: what a participant stands to lose under
//! each outcome, accumulated from the IOUs that touch the participant.

use crate::ledger::{Condition, ContractID, IouStatus, Price, MAX_VOLUME};
use vstd::prelude::*;

verus! {

/// The absolute value of an integer.
pub open spec fn abs(x: int) -> int {
    if x < 0 {
        -x
    } else {
        x
    }
}

/// The exposure of one participant to one contract: the net amount owed on
/// open "if" IOUs and on open "not" IOUs of that contract.
#[derive(Copy, Clone, Debug, PartialEq, Eq, Structural)]
pub struct ContractExposure {
    pub exposure: Price,
    pub neg_exposure: Price,
}

impl ContractExposure {
    /// No exposure at all.
    pub fn zero() -> (r: Self)
        ensures
            r.exposure == 0,
            r.neg_exposure == 0,
    {
        ContractExposure { exposure: 0, neg_exposure: 0 }
    }

    /// An exposure on the "if" side only.
    pub fn exposure(exposure: Price) -> (r: Self)
        ensures
            r.exposure == exposure,
            r.neg_exposure == 0,
    {
        ContractExposure { exposure, neg_exposure: 0 }
    }

    /// An exposure on the "not" side only.
    pub fn neg_exposure(neg_exposure: Price) -> (r: Self)
        ensures
            r.exposure == 0,
            r.neg_exposure == neg_exposure,
    {
        ContractExposure { exposure: 0, neg_exposure }
    }
}

/// One line of an exposure snapshot, over the integers.
pub struct ExposureEntry {
    pub contract_id: ContractID,
    pub exposure: int,
    pub neg_exposure: int,
}

impl ExposureEntry {
    /// What the entry adds to the loss if its contract alone comes true,
    /// compared with no contract coming true.
    pub open spec fn net(self) -> int {
        self.exposure - self.neg_exposure
    }
}

/// The sum of the "not" exposures of `entries`.
pub open spec fn sum_neg(entries: Seq<ExposureEntry>) -> int
    decreases entries.len(),
{
    if entries.len() == 0 {
        0
    } else {
        sum_neg(entries.drop_last()) + entries.last().neg_exposure
    }
}

/// The sum of the magnitudes of all exposures of `entries`.
pub open spec fn sum_abs(entries: Seq<ExposureEntry>) -> int
    decreases entries.len(),
{
    if entries.len() == 0 {
        0
    } else {
        sum_abs(entries.drop_last()) + abs(entries.last().exposure) + abs(
            entries.last().neg_exposure,
        )
    }
}

/// Whether an entry takes part in a maximum that leaves out `skip`.
pub open spec fn counts(e: ExposureEntry, skip: Option<ContractID>) -> bool {
    skip != Some(e.contract_id)
}

/// The largest `net` among the entries whose contract is not `skip`, or zero
/// where none is positive.
pub open spec fn max_net(entries: Seq<ExposureEntry>, skip: Option<ContractID>) -> int
    decreases entries.len(),
{
    if entries.len() == 0 {
        0
    } else {
        let rest = max_net(entries.drop_last(), skip);
        let e = entries.last();
        if counts(e, skip) && e.net() > rest {
            e.net()
        } else {
            rest
        }
    }
}

/// An exposure snapshot over the integers: a settled balance and one entry
/// for each contract that an IOU has touched.
pub struct ExposureModel {
    pub unconditional: int,
    pub conditional: Seq<ExposureEntry>,
}

impl ExposureModel {
    /// The snapshot of a participant whom no IOU touches.
    pub open spec fn empty() -> Self {
        ExposureModel { unconditional: 0, conditional: Seq::empty() }
    }

    /// No contract has two entries.
    pub open spec fn distinct(self) -> bool {
        forall|i: int, j: int|
            0 <= i < self.conditional.len() && 0 <= j < self.conditional.len() && i != j
                ==> self.conditional[i].contract_id != self.conditional[j].contract_id
    }

    /// Whether the contract has an entry.
    pub open spec fn has(self, c: ContractID) -> bool {
        exists|i: int| 0 <= i < self.conditional.len() && self.conditional[i].contract_id == c
    }

    /// The position of the contract's entry.
    pub open spec fn index_of(self, c: ContractID) -> int {
        choose|i: int| 0 <= i < self.conditional.len() && self.conditional[i].contract_id == c
    }

    /// The net amount owed on open "if" IOUs of the contract.
    pub open spec fn exposure(self, c: ContractID) -> int {
        if self.has(c) {
            self.conditional[self.index_of(c)].exposure
        } else {
            0
        }
    }

    /// The net amount owed on open "not" IOUs of the contract.
    pub open spec fn neg_exposure(self, c: ContractID) -> int {
        if self.has(c) {
            self.conditional[self.index_of(c)].neg_exposure
        } else {
            0
        }
    }

    /// What the contract adds to the loss if it alone comes true.
    pub open spec fn net(self, c: ContractID) -> int {
        self.exposure(c) - self.neg_exposure(c)
    }

    /// The loss if no contract comes true: every "not" exposure and the
    /// settled balance.
    pub open spec fn total_neg_exposure(self) -> int {
        sum_neg(self.conditional) + self.unconditional
    }

    /// The loss if the contract comes true and every other one false.
    pub open spec fn total_exposure_to_contract(self, c: ContractID) -> int {
        self.exposure(c) + self.total_neg_exposure() - self.neg_exposure(c)
    }

    /// The largest positive `net` among the contracts other than `c`, or zero.
    pub open spec fn worst_alternative(self, c: ContractID) -> int {
        max_net(self.conditional, Some(c))
    }

    /// The worst loss if the contract comes false: the loss if nothing comes
    /// true, and on top of it the worst single other contract coming true.
    pub open spec fn total_exposure_to_contract_neg(self, c: ContractID) -> int {
        self.total_neg_exposure() + self.worst_alternative(c)
    }

    /// The worst loss over all outcomes in which at most one contract comes
    /// true.
    pub open spec fn worst_exposure(self) -> int {
        self.total_neg_exposure() + max_net(self.conditional, None)
    }

    /// The profit or loss if the contract comes true.
    pub open spec fn outcome(self, c: ContractID) -> int {
        -self.total_exposure_to_contract(c)
    }

    /// The profit or loss if no contract comes true.
    pub open spec fn otherwise_outcome(self) -> int {
        -self.total_neg_exposure()
    }

    /// The sum of the magnitudes of everything the snapshot holds.
    pub open spec fn magnitude(self) -> int {
        abs(self.unconditional) + sum_abs(self.conditional)
    }

    /// No contract has two entries, and the magnitude is within the limit.
    pub open spec fn wf(self) -> bool {
        self.distinct() && self.magnitude() <= MAX_VOLUME
    }

    /// Every loss that the snapshot can realise is within `credit_limit`.
    pub open spec fn within_credit(self, credit_limit: int) -> bool {
        forall|c: ContractID|
            #![trigger self.total_exposure_to_contract(c)]
            #![trigger self.total_exposure_to_contract_neg(c)]
            self.total_exposure_to_contract(c) <= credit_limit
                && self.total_exposure_to_contract_neg(c) <= credit_limit
    }

    /// The snapshot with `amount` more owed on the "if" side of the contract.
    pub open spec fn add_exposure(self, c: ContractID, amount: int) -> Self {
        if self.has(c) {
            let i = self.index_of(c);
            let e = self.conditional[i];
            ExposureModel {
                unconditional: self.unconditional,
                conditional: self.conditional.update(
                    i,
                    ExposureEntry { exposure: e.exposure + amount, ..e },
                ),
            }
        } else {
            ExposureModel {
                unconditional: self.unconditional,
                conditional: self.conditional.push(
                    ExposureEntry { contract_id: c, exposure: amount, neg_exposure: 0 },
                ),
            }
        }
    }

    /// The snapshot with `amount` more owed on the "not" side of the contract.
    pub open spec fn add_neg_exposure(self, c: ContractID, amount: int) -> Self {
        if self.has(c) {
            let i = self.index_of(c);
            let e = self.conditional[i];
            ExposureModel {
                unconditional: self.unconditional,
                conditional: self.conditional.update(
                    i,
                    ExposureEntry { neg_exposure: e.neg_exposure + amount, ..e },
                ),
            }
        } else {
            ExposureModel {
                unconditional: self.unconditional,
                conditional: self.conditional.push(
                    ExposureEntry { contract_id: c, exposure: 0, neg_exposure: amount },
                ),
            }
        }
    }

    /// The snapshot with `amount` more owed under `status`: nothing for a
    /// cancelled IOU, the settled balance for a standing one, and the side
    /// of the condition for an open one.
    pub open spec fn add_status(self, status: IouStatus, amount: int) -> Self {
        match status {
            IouStatus::Void(_) => self,
            IouStatus::True(_) => ExposureModel {
                unconditional: self.unconditional + amount,
                conditional: self.conditional,
            },
            IouStatus::Unknown(Condition::If(c)) => self.add_exposure(c, amount),
            IouStatus::Unknown(Condition::Not(c)) => self.add_neg_exposure(c, amount),
        }
    }

    /// The snapshot of the issuer after an IOU of `amount` under `status`.
    pub open spec fn apply_issuer(self, status: IouStatus, amount: int) -> Self {
        self.add_status(status, amount)
    }

    /// The snapshot of the holder after an IOU of `amount` under `status`.
    pub open spec fn apply_holder(self, status: IouStatus, amount: int) -> Self {
        self.add_status(status, -amount)
    }

    /// In a snapshot without double entries, the entry at a position is the
    /// one that its contract is looked up under.
    pub proof fn lemma_lookup(self, i: int)
        requires
            self.distinct(),
            0 <= i < self.conditional.len(),
        ensures
            self.has(self.conditional[i].contract_id),
            self.index_of(self.conditional[i].contract_id) == i,
            self.exposure(self.conditional[i].contract_id) == self.conditional[i].exposure,
            self.neg_exposure(self.conditional[i].contract_id)
                == self.conditional[i].neg_exposure,
    {
    }

    /// Two snapshots with the same entries differ in the settled balance
    /// only.
    pub proof fn lemma_same_entries(self, other: ExposureModel)
        requires
            self.distinct(),
            other.conditional == self.conditional,
        ensures
            other.distinct(),
            forall|q: ContractID| #[trigger] other.exposure(q) == self.exposure(q),
            forall|q: ContractID| #[trigger] other.neg_exposure(q) == self.neg_exposure(q),
            other.total_neg_exposure() - other.unconditional == self.total_neg_exposure()
                - self.unconditional,
    {
        assert forall|q: ContractID| #[trigger] other.exposure(q) == self.exposure(q) by {
            if self.has(q) {
                let i = self.index_of(q);
                assert(other.conditional[i].contract_id == q);
                other.lemma_lookup(i);
            } else if other.has(q) {
                let i = other.index_of(q);
                assert(self.conditional[i].contract_id == q);
            }
        }
        assert forall|q: ContractID| #[trigger] other.neg_exposure(q) == self.neg_exposure(q) by {
            if self.has(q) {
                let i = self.index_of(q);
                assert(other.conditional[i].contract_id == q);
                other.lemma_lookup(i);
            } else if other.has(q) {
                let i = other.index_of(q);
                assert(self.conditional[i].contract_id == q);
            }
        }
    }

    /// `worst_alternative` is zero or the `net` of some other contract, and
    /// no other contract has a larger `net`.
    pub proof fn lemma_worst_alternative(self, c: ContractID)
        requires
            self.distinct(),
        ensures
            self.worst_alternative(c) >= 0,
            forall|q: ContractID| q != c ==> #[trigger] self.net(q) <= self.worst_alternative(c),
            self.worst_alternative(c) == 0 || exists|q: ContractID|
                q != c && #[trigger] self.net(q) == self.worst_alternative(c),
    {
        let s = self.conditional;
        let w = self.worst_alternative(c);
        lemma_max_net(s, Some(c));
        assert forall|q: ContractID| q != c implies #[trigger] self.net(q) <= w by {
            if self.has(q) {
                self.lemma_lookup(self.index_of(q));
            }
        }
        if w != 0 {
            let i = choose|i: int| 0 <= i < s.len() && counts(s[i], Some(c)) && s[i].net() == w;
            self.lemma_lookup(i);
            assert(self.net(s[i].contract_id) == w);
        }
    }

    /// `worst_exposure` is the largest of the losses under the single
    /// outcomes.
    pub proof fn lemma_worst_exposure(self)
        requires
            self.distinct(),
        ensures
            self.worst_exposure() >= self.total_neg_exposure(),
            forall|q: ContractID| #[trigger]
                self.total_exposure_to_contract(q) <= self.worst_exposure(),
            forall|q: ContractID| #[trigger]
                self.total_exposure_to_contract_neg(q) <= self.worst_exposure(),
            self.worst_exposure() == self.total_neg_exposure() || exists|q: ContractID| #[trigger]
                self.total_exposure_to_contract(q) == self.worst_exposure(),
    {
        let s = self.conditional;
        let w = max_net(s, None);
        lemma_max_net(s, None);
        assert forall|q: ContractID| #[trigger]
            self.total_exposure_to_contract(q) <= self.worst_exposure() by {
            if self.has(q) {
                self.lemma_lookup(self.index_of(q));
            }
        }
        assert forall|q: ContractID| #[trigger]
            self.total_exposure_to_contract_neg(q) <= self.worst_exposure() by {
            lemma_max_net(s, Some(q));
            let wq = max_net(s, Some(q));
            if wq != 0 {
                let i = choose|i: int|
                    0 <= i < s.len() && counts(s[i], Some(q)) && s[i].net() == wq;
                assert(counts(s[i], None));
            }
        }
        if w != 0 {
            let i = choose|i: int| 0 <= i < s.len() && counts(s[i], None) && s[i].net() == w;
            self.lemma_lookup(i);
            assert(self.total_exposure_to_contract(s[i].contract_id) == self.worst_exposure());
        }
    }

    /// A snapshot is within a credit limit exactly if its worst loss is.
    pub proof fn lemma_within_credit(self, credit_limit: int)
        requires
            self.distinct(),
        ensures
            self.within_credit(credit_limit) <==> self.worst_exposure() <= credit_limit,
    {
        self.lemma_worst_exposure();
        if self.within_credit(credit_limit) {
            let c0 = ContractID(0);
            self.lemma_worst_alternative(c0);
            assert(self.total_exposure_to_contract_neg(c0) <= credit_limit);
            if self.worst_exposure() != self.total_neg_exposure() {
                let q = choose|q: ContractID| #[trigger]
                    self.total_exposure_to_contract(q) == self.worst_exposure();
                assert(self.total_exposure_to_contract(q) <= credit_limit);
            }
        }
    }

    /// No single figure of a snapshot exceeds its magnitude.
    pub proof fn lemma_magnitude(self, c: ContractID)
        requires
            self.distinct(),
        ensures
            abs(self.exposure(c)) + abs(self.neg_exposure(c)) <= sum_abs(self.conditional),
            abs(self.total_neg_exposure()) <= self.magnitude(),
            0 <= self.worst_alternative(c) <= sum_abs(self.conditional),
            0 <= max_net(self.conditional, None) <= sum_abs(self.conditional),
    {
        let s = self.conditional;
        lemma_sums_bounds(s, Some(c));
        lemma_sums_bounds(s, None);
        if self.has(c) {
            let i = self.index_of(c);
            lemma_entry_bound(s, i);
        }
    }

    /// What `add_exposure` changes: the "if" exposure of the one contract.
    pub proof fn lemma_add_exposure(self, c: ContractID, amount: int)
        requires
            self.distinct(),
        ensures
            self.add_exposure(c, amount).distinct(),
            self.add_exposure(c, amount).unconditional == self.unconditional,
            self.add_exposure(c, amount).total_neg_exposure() == self.total_neg_exposure(),
            self.add_exposure(c, amount).magnitude() <= self.magnitude() + abs(amount),
            forall|q: ContractID| #[trigger]
                self.add_exposure(c, amount).exposure(q) == self.exposure(q) + if q == c {
                    amount
                } else {
                    0
                },
            forall|q: ContractID| #[trigger]
                self.add_exposure(c, amount).neg_exposure(q) == self.neg_exposure(q),
    {
        let t = self.add_exposure(c, amount);
        let s = self.conditional;
        if self.has(c) {
            let i = self.index_of(c);
            lemma_sums_update(s, i, t.conditional[i]);
        } else {
            lemma_sums_push(s, t.conditional.last());
        }
        self.lemma_same_contracts(t, c);
        assert forall|q: ContractID| #[trigger]
            t.exposure(q) == self.exposure(q) + if q == c {
                amount
            } else {
                0
            } by {
            if t.has(q) {
                t.lemma_lookup(t.index_of(q));
                if self.has(q) {
                    self.lemma_lookup(t.index_of(q));
                }
            }
        }
        assert forall|q: ContractID| #[trigger] t.neg_exposure(q) == self.neg_exposure(q) by {
            if t.has(q) {
                t.lemma_lookup(t.index_of(q));
                if self.has(q) {
                    self.lemma_lookup(t.index_of(q));
                }
            }
        }
    }

    /// What `add_neg_exposure` changes: the "not" exposure of the one
    /// contract, and with it the loss if nothing comes true.
    pub proof fn lemma_add_neg_exposure(self, c: ContractID, amount: int)
        requires
            self.distinct(),
        ensures
            self.add_neg_exposure(c, amount).distinct(),
            self.add_neg_exposure(c, amount).unconditional == self.unconditional,
            self.add_neg_exposure(c, amount).total_neg_exposure() == self.total_neg_exposure()
                + amount,
            self.add_neg_exposure(c, amount).magnitude() <= self.magnitude() + abs(amount),
            forall|q: ContractID| #[trigger]
                self.add_neg_exposure(c, amount).exposure(q) == self.exposure(q),
            forall|q: ContractID| #[trigger]
                self.add_neg_exposure(c, amount).neg_exposure(q) == self.neg_exposure(q) + if q
                    == c {
                    amount
                } else {
                    0
                },
    {
        let t = self.add_neg_exposure(c, amount);
        let s = self.conditional;
        if self.has(c) {
            let i = self.index_of(c);
            lemma_sums_update(s, i, t.conditional[i]);
        } else {
            lemma_sums_push(s, t.conditional.last());
        }
        self.lemma_same_contracts(t, c);
        assert forall|q: ContractID| #[trigger] t.exposure(q) == self.exposure(q) by {
            if t.has(q) {
                t.lemma_lookup(t.index_of(q));
                if self.has(q) {
                    self.lemma_lookup(t.index_of(q));
                }
            }
        }
        assert forall|q: ContractID| #[trigger]
            t.neg_exposure(q) == self.neg_exposure(q) + if q == c {
                amount
            } else {
                0
            } by {
            if t.has(q) {
                t.lemma_lookup(t.index_of(q));
                if self.has(q) {
                    self.lemma_lookup(t.index_of(q));
                }
            }
        }
    }

    /// The snapshot of a buyer after a trade on the contract: the buyer
    /// holds an "if" IOU of `if_amount` and has issued a "not" IOU of
    /// `not_amount`.
    pub open spec fn after_buy(self, c: ContractID, if_amount: int, not_amount: int) -> Self {
        self.apply_holder(IouStatus::Unknown(Condition::If(c)), if_amount).apply_issuer(
            IouStatus::Unknown(Condition::Not(c)),
            not_amount,
        )
    }

    /// The snapshot of a seller after a trade on the contract: the seller
    /// has issued an "if" IOU of `if_amount` and holds a "not" IOU of
    /// `not_amount`.
    pub open spec fn after_sell(self, c: ContractID, if_amount: int, not_amount: int) -> Self {
        self.apply_issuer(IouStatus::Unknown(Condition::If(c)), if_amount).apply_holder(
            IouStatus::Unknown(Condition::Not(c)),
            not_amount,
        )
    }

    /// A buyer who was within the credit limit, and who commits no more on
    /// the "not" side than the limit leaves over the worst loss if the
    /// contract comes false, is within the limit after the trade.
    pub proof fn lemma_buy_within_credit(
        self,
        c: ContractID,
        if_amount: int,
        not_amount: int,
        credit_limit: int,
    )
        requires
            self.distinct(),
            self.within_credit(credit_limit),
            if_amount >= 0,
            not_amount >= 0,
            not_amount <= credit_limit - self.total_exposure_to_contract_neg(c),
        ensures
            self.after_buy(c, if_amount, not_amount).distinct(),
            self.after_buy(c, if_amount, not_amount).within_credit(credit_limit),
            self.after_buy(c, if_amount, not_amount).magnitude() <= self.magnitude() + if_amount
                + not_amount,
    {
        let m1 = self.add_exposure(c, -if_amount);
        let m2 = m1.add_neg_exposure(c, not_amount);
        assert(m2 == self.after_buy(c, if_amount, not_amount));
        self.lemma_add_exposure(c, -if_amount);
        m1.lemma_add_neg_exposure(c, not_amount);
        self.lemma_worst_alternative(c);
        assert(self.total_exposure_to_contract(c) <= credit_limit);
        assert forall|q: ContractID|
            #![trigger m2.total_exposure_to_contract(q)]
            #![trigger m2.total_exposure_to_contract_neg(q)]
            m2.total_exposure_to_contract(q) <= credit_limit && m2.total_exposure_to_contract_neg(
                q,
            ) <= credit_limit by {
            assert(m2.exposure(q) == m1.exposure(q));
            assert(m2.neg_exposure(q) == m1.neg_exposure(q) + if q == c {
                not_amount
            } else {
                0
            });
            assert(m1.exposure(q) == self.exposure(q) + if q == c {
                -if_amount
            } else {
                0
            });
            assert(m1.neg_exposure(q) == self.neg_exposure(q));
            if q != c {
                assert(self.net(q) <= self.worst_alternative(c));
            }
            m2.lemma_worst_alternative(q);
            if m2.worst_alternative(q) != 0 {
                let r = choose|r: ContractID|
                    r != q && #[trigger] m2.net(r) == m2.worst_alternative(q);
                assert(m2.exposure(r) == m1.exposure(r));
                assert(m2.neg_exposure(r) == m1.neg_exposure(r) + if r == c {
                    not_amount
                } else {
                    0
                });
                assert(m1.exposure(r) == self.exposure(r) + if r == c {
                    -if_amount
                } else {
                    0
                });
                assert(m1.neg_exposure(r) == self.neg_exposure(r));
                if r != c {
                    assert(self.net(r) <= self.worst_alternative(c));
                }
            }
        }
    }

    /// A seller who was within the credit limit, and who commits no more on
    /// the "if" side than the limit leaves over the loss if the contract
    /// comes true, is within the limit after the trade.
    pub proof fn lemma_sell_within_credit(
        self,
        c: ContractID,
        if_amount: int,
        not_amount: int,
        credit_limit: int,
    )
        requires
            self.distinct(),
            self.within_credit(credit_limit),
            if_amount >= 0,
            not_amount >= 0,
            if_amount <= credit_limit - self.total_exposure_to_contract(c),
        ensures
            self.after_sell(c, if_amount, not_amount).distinct(),
            self.after_sell(c, if_amount, not_amount).within_credit(credit_limit),
            self.after_sell(c, if_amount, not_amount).magnitude() <= self.magnitude() + if_amount
                + not_amount,
    {
        let m1 = self.add_exposure(c, if_amount);
        let m2 = m1.add_neg_exposure(c, -not_amount);
        assert(m2 == self.after_sell(c, if_amount, not_amount));
        self.lemma_add_exposure(c, if_amount);
        m1.lemma_add_neg_exposure(c, -not_amount);
        self.lemma_worst_alternative(c);
        assert(self.total_exposure_to_contract_neg(c) <= credit_limit);
        assert forall|q: ContractID|
            #![trigger m2.total_exposure_to_contract(q)]
            #![trigger m2.total_exposure_to_contract_neg(q)]
            m2.total_exposure_to_contract(q) <= credit_limit && m2.total_exposure_to_contract_neg(
                q,
            ) <= credit_limit by {
            assert(m2.exposure(q) == m1.exposure(q));
            assert(m2.neg_exposure(q) == m1.neg_exposure(q) + if q == c {
                -not_amount
            } else {
                0
            });
            assert(m1.exposure(q) == self.exposure(q) + if q == c {
                if_amount
            } else {
                0
            });
            assert(m1.neg_exposure(q) == self.neg_exposure(q));
            assert(self.total_exposure_to_contract(q) <= credit_limit);
            m2.lemma_worst_alternative(q);
            if m2.worst_alternative(q) != 0 {
                let r = choose|r: ContractID|
                    r != q && #[trigger] m2.net(r) == m2.worst_alternative(q);
                assert(m2.exposure(r) == m1.exposure(r));
                assert(m2.neg_exposure(r) == m1.neg_exposure(r) + if r == c {
                    -not_amount
                } else {
                    0
                });
                assert(m1.exposure(r) == self.exposure(r) + if r == c {
                    if_amount
                } else {
                    0
                });
                assert(m1.neg_exposure(r) == self.neg_exposure(r));
                assert(self.total_exposure_to_contract(r) <= credit_limit);
            }
        }
    }

    /// A snapshot `t` that keeps the contracts of `self` in place, with at
    /// most a new last entry for `c`, has no double entries either, and has
    /// entries for the contracts of `self` and for `c` only.
    proof fn lemma_same_contracts(self, t: ExposureModel, c: ContractID)
        requires
            self.distinct(),
            self.has(c) ==> t.conditional.len() == self.conditional.len(),
            !self.has(c) ==> t.conditional.len() == self.conditional.len() + 1
                && t.conditional.last().contract_id == c,
            forall|i: int|
                0 <= i < self.conditional.len() ==> (#[trigger] t.conditional[i]).contract_id
                    == self.conditional[i].contract_id,
        ensures
            t.distinct(),
            t.has(c),
            forall|q: ContractID| q != c ==> (t.has(q) <==> self.has(q)),
            forall|q: ContractID| self.has(q) ==> t.has(q) && t.index_of(q) == self.index_of(q),
    {
        assert forall|i: int, j: int|
            0 <= i < t.conditional.len() && 0 <= j < t.conditional.len() && i != j implies t.conditional[i].contract_id
            != t.conditional[j].contract_id by {
            if i < self.conditional.len() {
                assert(t.conditional[i].contract_id == self.conditional[i].contract_id);
            }
            if j < self.conditional.len() {
                assert(t.conditional[j].contract_id == self.conditional[j].contract_id);
            }
        }
        if self.has(c) {
            assert(t.conditional[self.index_of(c)].contract_id == c);
        } else {
            assert(t.conditional[t.conditional.len() - 1].contract_id == c);
        }
        assert forall|q: ContractID| self.has(q) implies t.has(q) && t.index_of(q)
            == self.index_of(q) by {
            let i = self.index_of(q);
            assert(t.conditional[i].contract_id == q);
            t.lemma_lookup(i);
        }
        assert forall|q: ContractID| q != c && t.has(q) implies self.has(q) by {
            let i = t.index_of(q);
            assert(t.conditional[i].contract_id == self.conditional[i].contract_id);
        }
    }
}

/// The exposure snapshot of one participant: the settled balance and, for
/// each contract that an IOU has touched, the exposure on either side.
#[derive(Debug)]
pub struct Exposure {
    unconditional: Price,
    conditional: Vec<(ContractID, ContractExposure)>,
}

/// One stored line as an entry over the integers.
pub open spec fn entry_model(e: (ContractID, ContractExposure)) -> ExposureEntry {
    ExposureEntry {
        contract_id: e.0,
        exposure: e.1.exposure as int,
        neg_exposure: e.1.neg_exposure as int,
    }
}

impl View for Exposure {
    type V = ExposureModel;

    closed spec fn view(&self) -> ExposureModel {
        ExposureModel {
            unconditional: self.unconditional as int,
            conditional: self.conditional@.map_values(
                |e: (ContractID, ContractExposure)| entry_model(e),
            ),
        }
    }
}

impl Exposure {
    /// The snapshot has no double entries and is within the volume limit.
    pub open spec fn wf(&self) -> bool {
        self@.wf()
    }

    /// The snapshot of a participant whom no IOU touches.
    pub fn new() -> (e: Self)
        ensures
            e@ == ExposureModel::empty(),
            e.wf(),
    {
        let e = Exposure { unconditional: 0, conditional: Vec::new() };
        assert(e@.conditional =~= Seq::empty());
        e
    }

    /// The settled balance: what is owed whatever happens.
    pub fn unconditional(&self) -> (r: Price)
        ensures
            r == self@.unconditional,
    {
        self.unconditional
    }

    /// The contracts that have an entry, in the order of their entries.
    pub fn contracts(&self) -> (r: Vec<ContractID>)
        ensures
            r@.len() == self@.conditional.len(),
            forall|i: int| 0 <= i < r@.len() ==> r@[i] == self@.conditional[i].contract_id,
    {
        let mut r: Vec<ContractID> = Vec::new();
        let mut i: usize = 0;
        while i < self.conditional.len()
            invariant
                i <= self.conditional.len(),
                r@.len() == i,
                forall|j: int| 0 <= j < i ==> r@[j] == self@.conditional[j].contract_id,
            decreases self.conditional.len() - i,
        {
            r.push(self.conditional[i].0);
            i += 1;
        }
        r
    }

    fn find(&self, contract_id: ContractID) -> (r: Option<usize>)
        ensures
            match r {
                Some(i) => i < self@.conditional.len() && self@.conditional[i as int].contract_id
                    == contract_id && self@.has(contract_id),
                None => !self@.has(contract_id),
            },
    {
        let mut i: usize = 0;
        while i < self.conditional.len()
            invariant
                i <= self.conditional.len(),
                forall|j: int| 0 <= j < i ==> self@.conditional[j].contract_id != contract_id,
            decreases self.conditional.len() - i,
        {
            if self.conditional[i].0 == contract_id {
                return Some(i);
            }
            i += 1;
        }
        None
    }

    /// The exposure to one contract; zero on both sides where no IOU has
    /// touched it.
    pub fn contract_exposure(&self, contract_id: ContractID) -> (r: ContractExposure)
        requires
            self.wf(),
        ensures
            r.exposure == self@.exposure(contract_id),
            r.neg_exposure == self@.neg_exposure(contract_id),
    {
        match self.find(contract_id) {
            Some(i) => {
                proof {
                    self@.lemma_lookup(i as int);
                }
                self.conditional[i].1
            },
            None => ContractExposure::zero(),
        }
    }

    /// The net amount owed on open "if" IOUs of the contract.
    pub fn exposure(&self, contract_id: ContractID) -> (r: Price)
        requires
            self.wf(),
        ensures
            r == self@.exposure(contract_id),
    {
        self.contract_exposure(contract_id).exposure
    }

    /// The net amount owed on open "not" IOUs of the contract.
    pub fn neg_exposure(&self, contract_id: ContractID) -> (r: Price)
        requires
            self.wf(),
        ensures
            r == self@.neg_exposure(contract_id),
    {
        self.contract_exposure(contract_id).neg_exposure
    }

    /// The loss if no contract comes true.
    pub fn total_neg_exposure(&self) -> (r: Price)
        requires
            self.wf(),
        ensures
            r == self@.total_neg_exposure(),
    {
        let ghost s = self@.conditional;
        let mut neg: Price = 0;
        let mut i: usize = 0;
        proof {
            lemma_sum_abs_prefix(s, 0);
        }
        while i < self.conditional.len()
            invariant
                i <= self.conditional.len(),
                s == self@.conditional,
                self.wf(),
                neg == sum_neg(s.take(i as int)),
                abs(neg as int) <= sum_abs(s.take(i as int)) <= sum_abs(s),
            decreases self.conditional.len() - i,
        {
            proof {
                assert(s.take(i + 1).drop_last() =~= s.take(i as int));
                lemma_sum_abs_prefix(s, i + 1);
            }
            neg = neg + self.conditional[i].1.neg_exposure;
            i += 1;
        }
        proof {
            assert(s.take(i as int) =~= s);
        }
        neg + self.unconditional
    }

    /// The largest positive `net` among the entries that `skip` leaves in.
    fn max_net(&self, skip: Option<ContractID>) -> (r: Price)
        requires
            self.wf(),
        ensures
            r == max_net(self@.conditional, skip),
    {
        let ghost s = self@.conditional;
        let mut best: Price = 0;
        let mut i: usize = 0;
        while i < self.conditional.len()
            invariant
                i <= self.conditional.len(),
                s == self@.conditional,
                self.wf(),
                best == max_net(s.take(i as int), skip),
            decreases self.conditional.len() - i,
        {
            proof {
                assert(s.take(i + 1).drop_last() =~= s.take(i as int));
                lemma_entry_bound(s, i as int);
            }
            let e = self.conditional[i];
            let counted = match skip {
                Some(c) => e.0 != c,
                None => true,
            };
            let net = e.1.exposure - e.1.neg_exposure;
            if counted && net > best {
                best = net;
            }
            i += 1;
        }
        proof {
            assert(s.take(i as int) =~= s);
        }
        best
    }

    /// The loss if the contract comes true and every other one false: its
    /// "if" exposure, and the "not" exposure of every other contract, and
    /// the settled balance.
    pub fn total_exposure_to_contract(&self, contract_id: ContractID) -> (r: Price)
        requires
            self.wf(),
        ensures
            r == self@.total_exposure_to_contract(contract_id),
    {
        proof {
            self@.lemma_magnitude(contract_id);
        }
        let e = self.contract_exposure(contract_id);
        e.exposure + self.total_neg_exposure() - e.neg_exposure
    }

    /// The worst loss if the contract comes false: the loss if nothing comes
    /// true, and on top of it the largest positive `net` of another contract.
    pub fn total_exposure_to_contract_neg(&self, contract_id: ContractID) -> (r: Price)
        requires
            self.wf(),
        ensures
            r == self@.total_exposure_to_contract_neg(contract_id),
    {
        proof {
            self@.lemma_magnitude(contract_id);
        }
        self.total_neg_exposure() + self.max_net(Some(contract_id))
    }

    /// The worst loss over all outcomes in which at most one contract comes
    /// true.
    pub fn worst_exposure(&self) -> (r: Price)
        requires
            self.wf(),
        ensures
            r == self@.worst_exposure(),
    {
        proof {
            self@.lemma_magnitude(ContractID(0));
        }
        self.total_neg_exposure() + self.max_net(None)
    }

    /// The profit or loss if the contract comes true.
    pub fn outcome(&self, contract_id: ContractID) -> (r: Price)
        requires
            self.wf(),
        ensures
            r == self@.outcome(contract_id),
    {
        proof {
            self@.lemma_magnitude(contract_id);
        }
        -self.total_exposure_to_contract(contract_id)
    }

    /// The profit or loss if no contract comes true.
    pub fn otherwise_outcome(&self) -> (r: Price)
        requires
            self.wf(),
        ensures
            r == self@.otherwise_outcome(),
    {
        proof {
            self@.lemma_magnitude(ContractID(0));
        }
        -self.total_neg_exposure()
    }

    /// Adds `amount` to what is owed on the "if" side of the contract.
    pub fn add_exposure(&mut self, contract_id: ContractID, amount: Price)
        requires
            old(self).wf(),
            old(self)@.magnitude() + abs(amount as int) <= MAX_VOLUME,
        ensures
            final(self)@ == old(self)@.add_exposure(contract_id, amount as int),
            final(self).wf(),
    {
        proof {
            old(self)@.lemma_add_exposure(contract_id, amount as int);
            old(self)@.lemma_magnitude(contract_id);
        }
        match self.find(contract_id) {
            Some(i) => {
                proof {
                    self@.lemma_lookup(i as int);
                }
                let e = self.conditional[i].1;
                self.conditional[i] = (
                    contract_id,
                    ContractExposure {
                        exposure: e.exposure + amount,
                        neg_exposure: e.neg_exposure,
                    },
                );
            },
            None => {
                self.conditional.push((contract_id, ContractExposure::exposure(amount)));
            },
        }
        assert(self@.conditional =~= old(self)@.add_exposure(
            contract_id,
            amount as int,
        ).conditional);
    }

    /// Adds `amount` to what is owed on the "not" side of the contract.
    pub fn add_neg_exposure(&mut self, contract_id: ContractID, amount: Price)
        requires
            old(self).wf(),
            old(self)@.magnitude() + abs(amount as int) <= MAX_VOLUME,
        ensures
            final(self)@ == old(self)@.add_neg_exposure(contract_id, amount as int),
            final(self).wf(),
    {
        proof {
            old(self)@.lemma_add_neg_exposure(contract_id, amount as int);
            old(self)@.lemma_magnitude(contract_id);
        }
        match self.find(contract_id) {
            Some(i) => {
                proof {
                    self@.lemma_lookup(i as int);
                }
                let e = self.conditional[i].1;
                self.conditional[i] = (
                    contract_id,
                    ContractExposure {
                        exposure: e.exposure,
                        neg_exposure: e.neg_exposure + amount,
                    },
                );
            },
            None => {
                self.conditional.push((contract_id, ContractExposure::neg_exposure(amount)));
            },
        }
        assert(self@.conditional =~= old(self)@.add_neg_exposure(
            contract_id,
            amount as int,
        ).conditional);
    }

    /// Books an IOU of `amount` under `status` that this participant has
    /// issued.
    pub fn apply_iou_issuer(&mut self, status: &IouStatus, amount: Price)
        requires
            old(self).wf(),
            old(self)@.magnitude() + abs(amount as int) <= MAX_VOLUME,
        ensures
            final(self)@ == old(self)@.apply_issuer(*status, amount as int),
            final(self).wf(),
    {
        proof {
            lemma_sums_bounds(old(self)@.conditional, None);
        }
        match status {
            IouStatus::Void(_) => {},
            IouStatus::True(_) => {
                self.unconditional = self.unconditional + amount;
            },
            IouStatus::Unknown(Condition::If(contract_id)) => {
                self.add_exposure(*contract_id, amount)
            },
            IouStatus::Unknown(Condition::Not(contract_id)) => {
                self.add_neg_exposure(*contract_id, amount)
            },
        }
    }

    /// Books an IOU of `amount` under `status` that this participant holds.
    pub fn apply_iou_holder(&mut self, status: &IouStatus, amount: Price)
        requires
            old(self).wf(),
            old(self)@.magnitude() + abs(amount as int) <= MAX_VOLUME,
        ensures
            final(self)@ == old(self)@.apply_holder(*status, amount as int),
            final(self).wf(),
    {
        proof {
            lemma_sums_bounds(old(self)@.conditional, None);
        }
        match status {
            IouStatus::Void(_) => {},
            IouStatus::True(_) => {
                self.unconditional = self.unconditional - amount;
            },
            IouStatus::Unknown(Condition::If(contract_id)) => {
                self.add_exposure(*contract_id, -amount)
            },
            IouStatus::Unknown(Condition::Not(contract_id)) => {
                self.add_neg_exposure(*contract_id, -amount)
            },
        }
    }
}

/// `max_net` is zero or the `net` of an entry that counts, and no entry that
/// counts has a larger `net`.
pub proof fn lemma_max_net(s: Seq<ExposureEntry>, skip: Option<ContractID>)
    ensures
        max_net(s, skip) >= 0,
        forall|i: int| 0 <= i < s.len() && counts(s[i], skip) ==> s[i].net() <= max_net(s, skip),
        max_net(s, skip) == 0 || exists|i: int|
            0 <= i < s.len() && counts(s[i], skip) && s[i].net() == max_net(s, skip),
    decreases s.len(),
{
    if s.len() > 0 {
        let r = s.drop_last();
        lemma_max_net(r, skip);
        assert forall|i: int| 0 <= i < s.len() && counts(s[i], skip) implies s[i].net() <= max_net(
            s,
            skip,
        ) by {
            if i < r.len() {
                assert(r[i] == s[i]);
            }
        }
        if max_net(s, skip) != 0 {
            if max_net(s, skip) == max_net(r, skip) {
                let i = choose|i: int|
                    0 <= i < r.len() && counts(r[i], skip) && r[i].net() == max_net(r, skip);
                assert(s[i] == r[i]);
            } else {
                assert(s[s.len() - 1].net() == max_net(s, skip));
            }
        }
    }
}

/// The sums of a sequence with one entry replaced.
pub proof fn lemma_sums_update(s: Seq<ExposureEntry>, i: int, e: ExposureEntry)
    requires
        0 <= i < s.len(),
    ensures
        sum_neg(s.update(i, e)) == sum_neg(s) - s[i].neg_exposure + e.neg_exposure,
        sum_abs(s.update(i, e)) == sum_abs(s) - abs(s[i].exposure) - abs(s[i].neg_exposure) + abs(
            e.exposure,
        ) + abs(e.neg_exposure),
    decreases s.len(),
{
    if i == s.len() - 1 {
        assert(s.update(i, e).drop_last() =~= s.drop_last());
    } else {
        lemma_sums_update(s.drop_last(), i, e);
        assert(s.update(i, e).drop_last() =~= s.drop_last().update(i, e));
    }
}

/// The sums of a sequence with one entry more.
pub proof fn lemma_sums_push(s: Seq<ExposureEntry>, e: ExposureEntry)
    ensures
        sum_neg(s.push(e)) == sum_neg(s) + e.neg_exposure,
        sum_abs(s.push(e)) == sum_abs(s) + abs(e.exposure) + abs(e.neg_exposure),
{
    assert(s.push(e).drop_last() =~= s);
}

/// Neither the sum of the "not" exposures nor a `max_net` exceeds the sum of
/// the magnitudes.
pub proof fn lemma_sums_bounds(s: Seq<ExposureEntry>, skip: Option<ContractID>)
    ensures
        abs(sum_neg(s)) <= sum_abs(s),
        0 <= max_net(s, skip) <= sum_abs(s),
    decreases s.len(),
{
    if s.len() > 0 {
        lemma_sums_bounds(s.drop_last(), skip);
    }
}

/// No entry exceeds the sum of the magnitudes.
pub proof fn lemma_entry_bound(s: Seq<ExposureEntry>, i: int)
    requires
        0 <= i < s.len(),
    ensures
        abs(s[i].exposure) + abs(s[i].neg_exposure) <= sum_abs(s),
    decreases s.len(),
{
    lemma_sums_bounds(s.drop_last(), None);
    if i < s.len() - 1 {
        lemma_entry_bound(s.drop_last(), i);
    }
}

/// The sum of the magnitudes of a prefix does not exceed that of the whole.
pub proof fn lemma_sum_abs_prefix(s: Seq<ExposureEntry>, n: int)
    requires
        0 <= n <= s.len(),
    ensures
        0 <= sum_abs(s.take(n)) <= sum_abs(s),
    decreases s.len() - n,
{
    if n == s.len() {
        assert(s.take(n) =~= s);
        lemma_sums_bounds(s, None);
    } else {
        lemma_sum_abs_prefix(s, n + 1);
        assert(s.take(n + 1).drop_last() =~= s.take(n));
        lemma_sums_bounds(s.take(n), None);
    }
}

} // verus!
