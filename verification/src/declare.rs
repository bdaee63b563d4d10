//! Range declaration: a participant states, contract by contract, the range
//! that the participant believes the probability to lie in.

use crate::ledger::{ContractID, Price};
use crate::market::{
    lemma_with_range, put_range, ranges_distinct, with_range, Market, MarketError, MarketModel,
    PlayerModel, Range,
};
use vstd::prelude::*;

verus! {

/// What one line of a declaration asks for: the range, or the reason why
/// the line is refused. A line is refused where no contract has the name,
/// where the contract has resolved, and where the range is not
/// `0 <= low < high <= 100`, in that order.
pub open spec fn declared_range(m: MarketModel, line: (&str, Price, Price)) -> Result<
    Range,
    MarketError,
> {
    if !m.has_contract(line.0@) {
        Err(MarketError::NoSuchContract)
    } else if m.contracts[m.contract_index(line.0@)].outcome is Some {
        Err(MarketError::ContractResolved)
    } else if !(0 <= line.1 < line.2 <= 100) {
        Err(MarketError::InvalidRange)
    } else {
        Ok(
            Range {
                contract_id: ContractID(m.contract_index(line.0@) as usize),
                low: line.1,
                high: line.2,
            },
        )
    }
}

/// The ranges that a declaration asks for, a later line for a contract
/// taking the place of an earlier one; or the reason why its first refused
/// line is refused.
pub open spec fn declared(m: MarketModel, lines: Seq<(&str, Price, Price)>) -> Result<
    Seq<Range>,
    MarketError,
>
    decreases lines.len(),
{
    if lines.len() == 0 {
        Ok(Seq::empty())
    } else {
        match declared(m, lines.drop_last()) {
            Err(e) => Err(e),
            Ok(ranges) => match declared_range(m, lines.last()) {
                Err(e) => Err(e),
                Ok(r) => Ok(with_range(ranges, r)),
            },
        }
    }
}

/// A declaration whose first lines are refused is refused for the same
/// reason.
pub proof fn lemma_declared_prefix(m: MarketModel, lines: Seq<(&str, Price, Price)>, n: int)
    requires
        0 <= n <= lines.len(),
        declared(m, lines.take(n)) is Err,
    ensures
        declared(m, lines) == declared(m, lines.take(n)),
    decreases lines.len() - n,
{
    if n == lines.len() {
        assert(lines.take(n) =~= lines);
    } else {
        assert(lines.take(n + 1).drop_last() =~= lines.take(n));
        lemma_declared_prefix(m, lines, n + 1);
    }
}

impl Market {
    /// Declares the ranges of the participant `name`: the ranges that the
    /// participant had are withdrawn, and the lines of `ranges`, each a
    /// contract's name with the low and the high end in percent, are
    /// entered in their order. Fails, and changes nothing, where no
    /// participant has the name or a line is refused.
    pub fn player_ranges(&mut self, name: &str, ranges: Vec<(&str, Price, Price)>) -> (r: Result<
        (),
        MarketError,
    >)
        requires
            old(self).wf(),
        ensures
            final(self).wf(),
            old(self)@.credit_ok() ==> final(self)@.credit_ok(),
            r is Ok <==> old(self)@.has_player(name@) && declared(old(self)@, ranges@) is Ok,
            r is Err ==> final(self)@ == old(self)@ && r->Err_0 == if !old(self)@.has_player(
                name@,
            ) {
                MarketError::NoSuchPlayer
            } else {
                declared(old(self)@, ranges@)->Err_0
            },
            r is Ok ==> final(self)@ == (MarketModel {
                players: old(self)@.players.update(
                    old(self)@.player_index(name@),
                    PlayerModel {
                        ranges: declared(old(self)@, ranges@)->Ok_0,
                        ..old(self)@.players[old(self)@.player_index(name@)]
                    },
                ),
                ..old(self)@
            }),
    {
        let player_id = match self.find_player(name) {
            Some(player_id) => player_id,
            None => {
                return Err(MarketError::NoSuchPlayer);
            },
        };
        let ghost m = self@;
        let mut accepted: Vec<Range> = Vec::new();
        let mut i: usize = 0;
        proof {
            assert(ranges@.take(0) =~= Seq::empty());
        }
        while i < ranges.len()
            invariant
                i <= ranges.len(),
                m == self@,
                m == old(self)@,
                m.has_player(name@),
                self.wf(),
                declared(m, ranges@.take(i as int)) == Ok::<Seq<Range>, MarketError>(accepted@),
                ranges_distinct(accepted@),
                forall|k: int|
                    0 <= k < accepted@.len() ==> (#[trigger] accepted@[k]).valid()
                        && m.open_contract(accepted@[k].contract_id),
            decreases ranges.len() - i,
        {
            let (contract_name, low, high) = ranges[i];
            proof {
                assert(ranges@.take(i + 1).drop_last() =~= ranges@.take(i as int));
                assert(ranges@.take(i + 1).last() == ranges@[i as int]);
            }
            let contract_id = match self.find_contract(contract_name) {
                Some(contract_id) => contract_id,
                None => {
                    proof {
                        lemma_declared_prefix(m, ranges@, i + 1);
                    }
                    return Err(MarketError::NoSuchContract);
                },
            };
            if self.contracts[contract_id.0].outcome.is_some() {
                proof {
                    lemma_declared_prefix(m, ranges@, i + 1);
                }
                return Err(MarketError::ContractResolved);
            }
            if !(0 <= low && low < high && high <= 100) {
                proof {
                    lemma_declared_prefix(m, ranges@, i + 1);
                }
                return Err(MarketError::InvalidRange);
            }
            let range = Range { contract_id, low, high };
            proof {
                lemma_with_range(accepted@, range);
                let t = with_range(accepted@, range);
                assert forall|k: int| 0 <= k < t.len() implies (#[trigger] t[k]).valid()
                    && m.open_contract(t[k].contract_id) by {
                    if t[k] != range {
                        let j = choose|j: int| 0 <= j < accepted@.len() && accepted@[j] == t[k];
                        assert(accepted@[j].valid());
                    }
                }
            }
            put_range(&mut accepted, range);
            i += 1;
        }
        proof {
            assert(ranges@.take(i as int) =~= ranges@);
        }
        self.players[player_id.0].ranges = accepted;
        proof {
            let p = player_id.0 as int;
            let t = MarketModel {
                players: m.players.update(
                    p,
                    PlayerModel { ranges: declared(m, ranges@)->Ok_0, ..m.players[p] },
                ),
                ..m
            };
            assert(self@.contracts =~= m.contracts);
            assert(self@.players =~= t.players);
            assert(m.players[p].wf());
            assert forall|q: int| 0 <= q < t.players.len() implies (#[trigger] t.players[q]).wf() by {
                assert(m.players[q].wf());
            }
            assert forall|q: int, k: int|
                0 <= q < t.players.len() && 0 <= k < t.players[q].ranges.len() implies t.open_contract(
                (#[trigger] t.players[q].ranges[k]).contract_id,
            ) by {
                if q != p {
                    assert(m.open_contract(m.players[q].ranges[k].contract_id));
                }
            }
            assert forall|a: int, b: int|
                0 <= a < t.players.len() && 0 <= b < t.players.len() && a != b implies t.players[a].name
                != t.players[b].name by {
                assert(m.players[a].name != m.players[b].name);
            }
        }
        proof {
            assert(self.players@.len() == self.players.len());
            if old(self)@.credit_ok() {
                old(self)@.lemma_credit_kept(self@);
            }
        }
        Ok(())
    }
}

} // verus!
