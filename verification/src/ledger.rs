//! The records of the ledger: identities, conditions and conditional IOUs,
//! and the rule by which an outcome settles an IOU.

use vstd::prelude::*;

verus! {

/// An amount or a price, measured in cents.
pub type Price = i32;

/// The most that the amounts of all IOUs of one ledger may add up to, and the
/// highest credit limit a participant may have.
pub const MAX_VOLUME: Price = 500_000_000;

/// Identifies a contract of a market by its position in the catalog.
#[derive(Copy, Clone, Debug, PartialEq, Eq, Structural, PartialOrd, Ord, Hash)]
pub struct ContractID(pub usize);

/// Identifies a participant of a market by its position in the register.
#[derive(Copy, Clone, Debug, PartialEq, Eq, Structural, PartialOrd, Ord, Hash)]
pub struct PlayerID(pub usize);

/// The event on which an IOU is payable.
#[derive(Copy, Clone, Debug, PartialEq, Eq, Structural)]
pub enum Condition {
    /// Payable if the contract resolves true.
    If(ContractID),
    /// Payable if the contract resolves false.
    Not(ContractID),
}

/// Whether an IOU is still open, stands, or has been cancelled.
#[derive(Copy, Clone, Debug, PartialEq, Eq, Structural)]
pub enum IouStatus {
    /// The obligation is cancelled.
    Void(Condition),
    /// The obligation stands unconditionally.
    True(Condition),
    /// The contract of the condition has not resolved yet.
    Unknown(Condition),
}

/// A debt of `amount` from the issuer to the holder.
#[derive(Copy, Clone, Debug, PartialEq, Eq, Structural)]
pub struct Iou {
    pub issuer_id: PlayerID,
    pub holder_id: PlayerID,
    pub status: IouStatus,
    pub amount: Price,
}

impl Condition {
    /// The contract that the condition speaks of.
    pub open spec fn spec_contract_id(self) -> ContractID {
        match self {
            Condition::If(c) => c,
            Condition::Not(c) => c,
        }
    }

    /// The contract that the condition speaks of.
    pub fn contract_id(&self) -> (c: ContractID)
        ensures
            c == self.spec_contract_id(),
    {
        match self {
            Condition::If(c) => *c,
            Condition::Not(c) => *c,
        }
    }

    /// Whether the condition is met once its contract resolves to `outcome`.
    pub open spec fn spec_holds(self, outcome: bool) -> bool {
        match self {
            Condition::If(_) => outcome,
            Condition::Not(_) => !outcome,
        }
    }

    /// Whether the condition is met once its contract resolves to `outcome`.
    pub fn holds(&self, outcome: bool) -> (b: bool)
        ensures
            b == self.spec_holds(outcome),
    {
        match self {
            Condition::If(_) => outcome,
            Condition::Not(_) => !outcome,
        }
    }
}

impl IouStatus {
    /// The condition of the status.
    pub open spec fn spec_condition(self) -> Condition {
        match self {
            IouStatus::Void(c) => c,
            IouStatus::True(c) => c,
            IouStatus::Unknown(c) => c,
        }
    }

    /// What the status says of the obligation: cancelled, standing or open.
    pub open spec fn spec_settled(self) -> Option<bool> {
        match self {
            IouStatus::Void(_) => Some(false),
            IouStatus::True(_) => Some(true),
            IouStatus::Unknown(_) => None,
        }
    }

    /// Splits a status into its condition and what is known of the
    /// obligation: `Some(false)` for cancelled, `Some(true)` for standing,
    /// `None` while the contract is open.
    pub fn decompose(&self) -> (r: (&Condition, Option<bool>))
        ensures
            *r.0 == self.spec_condition(),
            r.1 == self.spec_settled(),
    {
        match self {
            IouStatus::Void(condition) => (condition, Some(false)),
            IouStatus::True(condition) => (condition, Some(true)),
            IouStatus::Unknown(condition) => (condition, None),
        }
    }

    /// The status after the contract `contract_id` has resolved to `outcome`:
    /// an open status on that contract stands if its condition is met and is
    /// cancelled otherwise; every other status stays as it is.
    pub open spec fn spec_resolve(self, contract_id: ContractID, outcome: bool) -> IouStatus {
        match self {
            IouStatus::Unknown(condition) => if condition.spec_contract_id() == contract_id {
                if condition.spec_holds(outcome) {
                    IouStatus::True(condition)
                } else {
                    IouStatus::Void(condition)
                }
            } else {
                self
            },
            _ => self,
        }
    }

    /// The status after the contract `contract_id` has resolved to `outcome`.
    pub fn resolve(&self, contract_id: ContractID, outcome: bool) -> (s: IouStatus)
        ensures
            s == self.spec_resolve(contract_id, outcome),
    {
        match self {
            IouStatus::Unknown(condition) => {
                if condition.contract_id() == contract_id {
                    if condition.holds(outcome) {
                        IouStatus::True(*condition)
                    } else {
                        IouStatus::Void(*condition)
                    }
                } else {
                    *self
                }
            },
            _ => *self,
        }
    }
}

/// The sum of the amounts of `ious`.
pub open spec fn volume(ious: Seq<Iou>) -> int
    decreases ious.len(),
{
    if ious.len() == 0 {
        0
    } else {
        volume(ious.drop_last()) + ious.last().amount
    }
}

} // verus!
