//! The market: the catalog of contracts, the register of participants with
//! their credit limits and declared ranges, and the ledger of IOUs.

use crate::ledger::{ContractID, Iou, PlayerID, Price, MAX_VOLUME};
use crate::names::str_eq;
use vstd::prelude::*;

verus! {

/// Why the market turned a request down.
#[derive(Copy, Clone, Debug, PartialEq, Eq, Structural)]
pub enum MarketError {
    /// No contract has the name.
    NoSuchContract,
    /// No participant has the name.
    NoSuchPlayer,
    /// A contract of that name exists already.
    DuplicateContract,
    /// A participant of that name exists already.
    DuplicatePlayer,
    /// The contract has resolved.
    ContractResolved,
    /// The range is not `0 <= low < high <= 100`.
    InvalidRange,
    /// The credit limit would shrink or pass the volume limit.
    InvalidCredit,
}

/// A belief range for one contract, in percent: a bid at `low` and an ask
/// at `high`.
#[derive(Copy, Clone, Debug, PartialEq, Eq, Structural)]
pub struct Range {
    pub contract_id: ContractID,
    pub low: Price,
    pub high: Price,
}

impl Range {
    /// The bounds are percentages, and the bid is below the ask.
    pub open spec fn valid(self) -> bool {
        0 <= self.low < self.high <= 100
    }
}

/// Whether some range of `ranges` is for the contract.
pub open spec fn has_range(ranges: Seq<Range>, c: ContractID) -> bool {
    exists|i: int| 0 <= i < ranges.len() && ranges[i].contract_id == c
}

/// The position of the contract's range in `ranges`.
pub open spec fn range_index(ranges: Seq<Range>, c: ContractID) -> int {
    choose|i: int| 0 <= i < ranges.len() && ranges[i].contract_id == c
}

/// No contract has two ranges.
pub open spec fn ranges_distinct(ranges: Seq<Range>) -> bool {
    forall|i: int, j: int|
        0 <= i < ranges.len() && 0 <= j < ranges.len() && i != j ==> ranges[i].contract_id
            != ranges[j].contract_id
}

/// `ranges` with `r` as the range of its contract, in place of an earlier
/// one if there was one.
pub open spec fn with_range(ranges: Seq<Range>, r: Range) -> Seq<Range> {
    if has_range(ranges, r.contract_id) {
        ranges.update(range_index(ranges, r.contract_id), r)
    } else {
        ranges.push(r)
    }
}

/// `ranges` without the range of the contract.
pub open spec fn without_range(ranges: Seq<Range>, c: ContractID) -> Seq<Range> {
    if has_range(ranges, c) {
        ranges.remove(range_index(ranges, c))
    } else {
        ranges
    }
}

/// In ranges without double entries, the range at a position is the one
/// that its contract is looked up under.
pub proof fn lemma_range_lookup(ranges: Seq<Range>, i: int)
    requires
        ranges_distinct(ranges),
        0 <= i < ranges.len(),
    ensures
        has_range(ranges, ranges[i].contract_id),
        range_index(ranges, ranges[i].contract_id) == i,
{
}

/// Putting a range in keeps the ranges free of double entries, and keeps
/// them valid if the new one is.
pub proof fn lemma_with_range(ranges: Seq<Range>, r: Range)
    requires
        ranges_distinct(ranges),
    ensures
        ranges_distinct(with_range(ranges, r)),
        has_range(with_range(ranges, r), r.contract_id),
        forall|i: int|
            0 <= i < with_range(ranges, r).len() ==> (#[trigger] with_range(ranges, r)[i]) == r
                || exists|j: int| 0 <= j < ranges.len() && ranges[j] == with_range(ranges, r)[i],
{
    let t = with_range(ranges, r);
    if has_range(ranges, r.contract_id) {
        let k = range_index(ranges, r.contract_id);
        assert(t[k].contract_id == r.contract_id);
        assert forall|i: int| 0 <= i < t.len() implies (#[trigger] t[i]) == r || exists|j: int|
            0 <= j < ranges.len() && ranges[j] == t[i] by {
            if i != k {
                assert(ranges[i] == t[i]);
            }
        }
    } else {
        assert(t[t.len() - 1].contract_id == r.contract_id);
        assert forall|i: int| 0 <= i < t.len() implies (#[trigger] t[i]) == r || exists|j: int|
            0 <= j < ranges.len() && ranges[j] == t[i] by {
            if i < ranges.len() {
                assert(ranges[i] == t[i]);
            }
        }
    }
}

/// Whether `r` is one of `ranges`.
pub open spec fn is_range_of(ranges: Seq<Range>, r: Range) -> bool {
    exists|j: int| 0 <= j < ranges.len() && ranges[j] == r
}

/// Taking a range out keeps the ranges free of double entries, leaves no
/// range for the contract, and keeps every other range.
pub proof fn lemma_without_range(ranges: Seq<Range>, c: ContractID)
    requires
        ranges_distinct(ranges),
    ensures
        ranges_distinct(without_range(ranges, c)),
        !has_range(without_range(ranges, c), c),
        forall|r: Range| #[trigger]
            is_range_of(without_range(ranges, c), r) <==> is_range_of(ranges, r) && r.contract_id
                != c,
{
    let t = without_range(ranges, c);
    if has_range(ranges, c) {
        let k = range_index(ranges, c);
        assert forall|i: int| 0 <= i < t.len() implies #[trigger] t[i] == ranges[if i < k {
            i
        } else {
            i + 1
        }] by {}
        assert forall|r: Range| #[trigger] is_range_of(t, r) implies is_range_of(ranges, r)
            && r.contract_id != c by {
            let i = choose|i: int| 0 <= i < t.len() && t[i] == r;
            let i2 = if i < k {
                i
            } else {
                i + 1
            };
            assert(ranges[i2] == r);
        }
        assert forall|r: Range| is_range_of(ranges, r) && r.contract_id != c implies #[trigger]
            is_range_of(t, r) by {
            let j = choose|j: int| 0 <= j < ranges.len() && ranges[j] == r;
            let j2 = if j < k {
                j
            } else {
                j - 1
            };
            assert(t[j2] == r);
        }
        assert forall|i: int, j: int| 0 <= i < t.len() && 0 <= j < t.len() && i != j implies t[i].contract_id
            != t[j].contract_id by {
            let i2 = if i < k {
                i
            } else {
                i + 1
            };
            let j2 = if j < k {
                j
            } else {
                j + 1
            };
            assert(t[i] == ranges[i2] && t[j] == ranges[j2]);
        }
        if has_range(t, c) {
            let i = range_index(t, c);
            assert(is_range_of(t, t[i]));
        }
    } else {
        assert forall|r: Range| is_range_of(ranges, r) implies r.contract_id != c by {
            let j = choose|j: int| 0 <= j < ranges.len() && ranges[j] == r;
            assert(ranges[j].contract_id != c);
        }
    }
}

/// A binary-outcome proposition that participants trade on.
#[derive(Debug)]
pub struct Contract {
    pub name: String,
    pub outcome: Option<bool>,
}

/// A contract as a value: its name as characters, and its outcome.
pub struct ContractModel {
    pub name: Seq<char>,
    pub outcome: Option<bool>,
}

impl View for Contract {
    type V = ContractModel;

    open spec fn view(&self) -> ContractModel {
        ContractModel { name: self.name@, outcome: self.outcome }
    }
}

impl Contract {
    /// A contract of that name that has not resolved.
    pub fn new(name: &str) -> (c: Self)
        ensures
            c@ == (ContractModel { name: name@, outcome: None }),
    {
        Contract { name: name.to_owned(), outcome: None }
    }
}

/// A participant: a name, a credit limit in cents, and at most one range
/// for each contract.
#[derive(Debug)]
pub struct Player {
    pub name: String,
    pub ranges: Vec<Range>,
    pub credit_limit: Price,
}

/// A participant as a value.
pub struct PlayerModel {
    pub name: Seq<char>,
    pub ranges: Seq<Range>,
    pub credit_limit: int,
}

impl PlayerModel {
    /// The credit limit is within bounds, every range is valid, and no
    /// contract has two ranges.
    pub open spec fn wf(self) -> bool {
        &&& 0 <= self.credit_limit <= MAX_VOLUME
        &&& ranges_distinct(self.ranges)
        &&& forall|i: int| 0 <= i < self.ranges.len() ==> (#[trigger] self.ranges[i]).valid()
    }
}

impl View for Player {
    type V = PlayerModel;

    open spec fn view(&self) -> PlayerModel {
        PlayerModel {
            name: self.name@,
            ranges: self.ranges@,
            credit_limit: self.credit_limit as int,
        }
    }
}

impl Player {
    /// See `PlayerModel::wf`.
    pub open spec fn wf(&self) -> bool {
        self@.wf()
    }

    /// A participant of that name without credit and without ranges.
    pub fn new(name: &str) -> (p: Self)
        ensures
            p@ == (PlayerModel { name: name@, ranges: Seq::empty(), credit_limit: 0 }),
            p.wf(),
    {
        Player { name: name.to_owned(), ranges: Vec::new(), credit_limit: 0 }
    }

    /// Withdraws every range.
    pub fn clear_ranges(&mut self)
        requires
            old(self).wf(),
        ensures
            final(self)@ == (PlayerModel { ranges: Seq::empty(), ..old(self)@ }),
            final(self).wf(),
    {
        self.ranges.clear();
    }

    /// The position of the contract's range, if it has one.
    pub fn find_range(&self, contract_id: ContractID) -> (r: Option<usize>)
        ensures
            match r {
                Some(i) => i < self.ranges@.len() && self.ranges@[i as int].contract_id
                    == contract_id && has_range(self.ranges@, contract_id),
                None => !has_range(self.ranges@, contract_id),
            },
    {
        find_range(&self.ranges, contract_id)
    }

    /// Declares the range `low` to `high` for the contract, in place of an
    /// earlier one. A range that is not `0 <= low < high <= 100` is
    /// refused, and nothing changes.
    pub fn set_range(&mut self, contract_id: ContractID, low: Price, high: Price) -> (r: Result<
        (),
        MarketError,
    >)
        requires
            old(self).wf(),
        ensures
            final(self).wf(),
            r is Ok <==> 0 <= low < high <= 100,
            r is Err ==> r == Err::<(), MarketError>(MarketError::InvalidRange) && *final(self)
                == *old(self),
            r is Ok ==> final(self)@ == (PlayerModel {
                ranges: with_range(old(self)@.ranges, Range { contract_id, low, high }),
                ..old(self)@
            }),
    {
        if !(0 <= low && low < high && high <= 100) {
            return Err(MarketError::InvalidRange);
        }
        proof {
            lemma_with_range(self.ranges@, Range { contract_id, low, high });
        }
        put_range(&mut self.ranges, Range { contract_id, low, high });
        Ok(())
    }
}

/// The position of the contract's range in `ranges`, if it has one.
pub fn find_range(ranges: &Vec<Range>, contract_id: ContractID) -> (r: Option<usize>)
    ensures
        match r {
            Some(i) => i < ranges@.len() && ranges@[i as int].contract_id == contract_id
                && has_range(ranges@, contract_id),
            None => !has_range(ranges@, contract_id),
        },
{
    let mut i: usize = 0;
    while i < ranges.len()
        invariant
            i <= ranges.len(),
            forall|j: int| 0 <= j < i ==> ranges@[j].contract_id != contract_id,
        decreases ranges.len() - i,
    {
        if ranges[i].contract_id == contract_id {
            return Some(i);
        }
        i += 1;
    }
    None
}

/// Puts `range` in as the range of its contract.
pub fn put_range(ranges: &mut Vec<Range>, range: Range)
    requires
        ranges_distinct(old(ranges)@),
    ensures
        final(ranges)@ == with_range(old(ranges)@, range),
{
    match find_range(ranges, range.contract_id) {
        Some(i) => {
            proof {
                lemma_range_lookup(ranges@, i as int);
            }
            ranges[i] = range;
        },
        None => {
            ranges.push(range);
        },
    }
}

/// The whole state of the exchange.
#[derive(Debug)]
pub struct Market {
    pub contracts: Vec<Contract>,
    pub players: Vec<Player>,
    pub ious: Vec<Iou>,
}

/// The state of the exchange as a value.
pub struct MarketModel {
    pub contracts: Seq<ContractModel>,
    pub players: Seq<PlayerModel>,
    pub ious: Seq<Iou>,
}

/// The IOUs name participants below `players`, and every amount is
/// positive.
pub open spec fn ledger_wf(ious: Seq<Iou>, players: nat) -> bool {
    forall|k: int|
        0 <= k < ious.len() ==> {
            &&& (#[trigger] ious[k]).amount > 0
            &&& ious[k].issuer_id.0 < players
            &&& ious[k].holder_id.0 < players
        }
}

impl MarketModel {
    /// Whether a contract has the name.
    pub open spec fn has_contract(self, name: Seq<char>) -> bool {
        exists|i: int| 0 <= i < self.contracts.len() && self.contracts[i].name == name
    }

    /// The position of the contract of that name.
    pub open spec fn contract_index(self, name: Seq<char>) -> int {
        choose|i: int| 0 <= i < self.contracts.len() && self.contracts[i].name == name
    }

    /// Whether a participant has the name.
    pub open spec fn has_player(self, name: Seq<char>) -> bool {
        exists|i: int| 0 <= i < self.players.len() && self.players[i].name == name
    }

    /// The position of the participant of that name.
    pub open spec fn player_index(self, name: Seq<char>) -> int {
        choose|i: int| 0 <= i < self.players.len() && self.players[i].name == name
    }

    /// Names are unique, every participant is well formed, ranges are for
    /// open contracts of the catalog only, and the ledger is sound and
    /// within the volume limit.
    pub open spec fn wf(self) -> bool {
        &&& forall|i: int, j: int|
            0 <= i < self.contracts.len() && 0 <= j < self.contracts.len() && i != j
                ==> self.contracts[i].name != self.contracts[j].name
        &&& forall|i: int, j: int|
            0 <= i < self.players.len() && 0 <= j < self.players.len() && i != j
                ==> self.players[i].name != self.players[j].name
        &&& forall|p: int| 0 <= p < self.players.len() ==> (#[trigger] self.players[p]).wf()
        &&& forall|p: int, i: int|
            0 <= p < self.players.len() && 0 <= i < self.players[p].ranges.len()
                ==> self.open_contract((#[trigger] self.players[p].ranges[i]).contract_id)
        &&& ledger_wf(self.ious, self.players.len())
        &&& crate::ledger::volume(self.ious) <= MAX_VOLUME
    }

    /// The contract is in the catalog and has not resolved.
    pub open spec fn open_contract(self, c: ContractID) -> bool {
        c.0 < self.contracts.len() && self.contracts[c.0 as int].outcome is None
    }

    /// Why the range cannot be brought into the market, if it cannot: its
    /// contract is not in the catalog, or has resolved.
    pub open spec fn range_error(self, r: Range) -> Option<MarketError> {
        if r.contract_id.0 >= self.contracts.len() {
            Some(MarketError::NoSuchContract)
        } else if self.contracts[r.contract_id.0 as int].outcome is Some {
            Some(MarketError::ContractResolved)
        } else {
            None
        }
    }

    /// Why the first of the ranges that cannot be brought into the market
    /// cannot.
    pub open spec fn ranges_error(self, ranges: Seq<Range>) -> Option<MarketError>
        decreases ranges.len(),
    {
        if ranges.len() == 0 {
            None
        } else {
            match self.ranges_error(ranges.drop_last()) {
                Some(e) => Some(e),
                None => self.range_error(ranges.last()),
            }
        }
    }

    /// Why the participant cannot be entered, if it cannot: a participant of
    /// its name is there, or one of its ranges cannot be brought in.
    pub open spec fn admission(self, player: PlayerModel) -> Option<MarketError> {
        if self.has_player(player.name) {
            Some(MarketError::DuplicatePlayer)
        } else {
            self.ranges_error(player.ranges)
        }
    }

    /// Ranges whose first ones cannot be brought in cannot be brought in,
    /// for the same reason.
    pub proof fn lemma_ranges_error(self, ranges: Seq<Range>, n: int)
        requires
            0 <= n <= ranges.len(),
            self.ranges_error(ranges.take(n)) is Some,
        ensures
            self.ranges_error(ranges) == self.ranges_error(ranges.take(n)),
        decreases ranges.len() - n,
    {
        if n == ranges.len() {
            assert(ranges.take(n) =~= ranges);
        } else {
            assert(ranges.take(n + 1).drop_last() =~= ranges.take(n));
            self.lemma_ranges_error(ranges, n + 1);
        }
    }

    /// In a market with unique names, the contract at a position is the one
    /// that its name is looked up under; the same for participants.
    pub proof fn lemma_lookup(self)
        requires
            self.wf(),
        ensures
            forall|i: int|
                0 <= i < self.contracts.len() ==> self.has_contract(
                    (#[trigger] self.contracts[i]).name,
                ) && self.contract_index(self.contracts[i].name) == i,
            forall|i: int|
                0 <= i < self.players.len() ==> self.has_player((#[trigger] self.players[i]).name)
                    && self.player_index(self.players[i].name) == i,
    {
    }
}

impl View for Market {
    type V = MarketModel;

    open spec fn view(&self) -> MarketModel {
        MarketModel {
            contracts: Seq::new(self.contracts@.len(), |i: int| self.contracts@[i]@),
            players: Seq::new(self.players@.len(), |i: int| self.players@[i]@),
            ious: self.ious@,
        }
    }
}

impl Market {
    /// See `MarketModel::wf`.
    pub open spec fn wf(&self) -> bool {
        self@.wf()
    }

    /// A market without contracts, participants or IOUs.
    pub fn new() -> (m: Self)
        ensures
            m@.contracts.len() == 0,
            m@.players.len() == 0,
            m@.ious.len() == 0,
            m.wf(),
            m@.credit_ok(),
    {
        Market { contracts: Vec::new(), players: Vec::new(), ious: Vec::new() }
    }

    /// The contract with that identity.
    pub fn get_contract(&self, contract_id: ContractID) -> (c: &Contract)
        requires
            contract_id.0 < self@.contracts.len(),
        ensures
            c@ == self@.contracts[contract_id.0 as int],
    {
        &self.contracts[contract_id.0]
    }

    /// The participant with that identity.
    pub fn get_player(&self, player_id: PlayerID) -> (p: &Player)
        requires
            player_id.0 < self@.players.len(),
        ensures
            p@ == self@.players[player_id.0 as int],
    {
        &self.players[player_id.0]
    }

    /// The contract with that identity, to be changed in place. The caller
    /// answers for the market being well formed afterwards.
    pub fn get_contract_mut(&mut self, contract_id: ContractID) -> (c: &mut Contract)
        requires
            contract_id.0 < old(self).contracts@.len(),
        ensures
            *c == old(self).contracts@[contract_id.0 as int],
            final(self).contracts@ == old(self).contracts@.update(
                contract_id.0 as int,
                *final(c),
            ),
            final(self).players == old(self).players,
            final(self).ious == old(self).ious,
    {
        &mut self.contracts[contract_id.0]
    }

    /// The participant with that identity, to be changed in place. The
    /// caller answers for the market being well formed afterwards.
    pub fn get_player_mut(&mut self, player_id: PlayerID) -> (p: &mut Player)
        requires
            player_id.0 < old(self).players@.len(),
        ensures
            *p == old(self).players@[player_id.0 as int],
            final(self).players@ == old(self).players@.update(player_id.0 as int, *final(p)),
            final(self).contracts == old(self).contracts,
            final(self).ious == old(self).ious,
    {
        &mut self.players[player_id.0]
    }

    /// The identity of the contract of that name, if there is one.
    pub fn find_contract(&self, name: &str) -> (r: Option<ContractID>)
        requires
            self.wf(),
        ensures
            r is Some <==> self@.has_contract(name@),
            r is Some ==> r.unwrap().0 == self@.contract_index(name@),
    {
        let mut i: usize = 0;
        while i < self.contracts.len()
            invariant
                i <= self.contracts.len(),
                self.wf(),
                forall|j: int| 0 <= j < i ==> self@.contracts[j].name != name@,
            decreases self.contracts.len() - i,
        {
            if str_eq(self.contracts[i].name.as_str(), name) {
                proof {
                    self@.lemma_lookup();
                    assert(self@.contracts[i as int].name == name@);
                }
                return Some(ContractID(i));
            }
            i += 1;
        }
        None
    }

    /// The identity of the participant of that name, if there is one.
    pub fn find_player(&self, name: &str) -> (r: Option<PlayerID>)
        requires
            self.wf(),
        ensures
            r is Some <==> self@.has_player(name@),
            r is Some ==> r.unwrap().0 == self@.player_index(name@),
    {
        let mut i: usize = 0;
        while i < self.players.len()
            invariant
                i <= self.players.len(),
                self.wf(),
                forall|j: int| 0 <= j < i ==> self@.players[j].name != name@,
            decreases self.players.len() - i,
        {
            if str_eq(self.players[i].name.as_str(), name) {
                proof {
                    self@.lemma_lookup();
                    assert(self@.players[i as int].name == name@);
                }
                return Some(PlayerID(i));
            }
            i += 1;
        }
        None
    }

    /// Enters a contract in the catalog, unless one of its name is there.
    pub fn add_contract(&mut self, contract: Contract) -> (r: Result<(), MarketError>)
        requires
            old(self).wf(),
        ensures
            final(self).wf(),
            old(self)@.credit_ok() ==> final(self)@.credit_ok(),
            r is Ok <==> !old(self)@.has_contract(contract@.name),
            r is Err ==> r == Err::<(), MarketError>(MarketError::DuplicateContract) && final(self)@ == old(self)@,
            r is Ok ==> final(self)@ == (MarketModel {
                contracts: old(self)@.contracts.push(contract@),
                ..old(self)@
            }),
    {
        if self.find_contract(contract.name.as_str()).is_some() {
            return Err(MarketError::DuplicateContract);
        }
        self.contracts.push(contract);
        proof {
            assert(self@.contracts =~= old(self)@.contracts.push(contract@));
            assert(self@.players =~= old(self)@.players);
        }
        proof {
            assert(self.players@.len() == self.players.len());
            if old(self)@.credit_ok() {
                old(self)@.lemma_credit_kept(self@);
            }
        }
        Ok(())
    }

    /// Enters a participant in the register. Fails, and changes nothing,
    /// where a participant of its name is there, or where the participant
    /// brings a range for a contract that is not in the catalog or has
    /// resolved.
    pub fn add_player(&mut self, player: Player) -> (r: Result<(), MarketError>)
        requires
            old(self).wf(),
            player.wf(),
        ensures
            final(self).wf(),
            old(self)@.credit_ok() ==> final(self)@.credit_ok(),
            r == match old(self)@.admission(player@) {
                Some(e) => Err::<(), MarketError>(e),
                None => Ok(()),
            },
            r is Err ==> final(self)@ == old(self)@,
            r is Ok ==> final(self)@ == (MarketModel {
                players: old(self)@.players.push(player@),
                ..old(self)@
            }),
    {
        if self.find_player(player.name.as_str()).is_some() {
            return Err(MarketError::DuplicatePlayer);
        }
        let mut i: usize = 0;
        proof {
            assert(player@.ranges.take(0) =~= Seq::empty());
        }
        while i < player.ranges.len()
            invariant
                i <= player.ranges.len(),
                *self == *old(self),
                self.wf(),
                !self@.has_player(player@.name),
                self@.ranges_error(player@.ranges.take(i as int)) is None,
                forall|k: int|
                    0 <= k < i ==> self@.open_contract((#[trigger] player@.ranges[k]).contract_id),
            decreases player.ranges.len() - i,
        {
            let contract_id = player.ranges[i].contract_id;
            proof {
                assert(player@.ranges.take(i + 1).drop_last() =~= player@.ranges.take(i as int));
                assert(self.contracts@.len() == self@.contracts.len());
            }
            if contract_id.0 >= self.contracts.len() {
                proof {
                    self@.lemma_ranges_error(player@.ranges, i + 1);
                }
                return Err(MarketError::NoSuchContract);
            }
            if self.contracts[contract_id.0].outcome.is_some() {
                proof {
                    self@.lemma_ranges_error(player@.ranges, i + 1);
                }
                return Err(MarketError::ContractResolved);
            }
            i += 1;
        }
        proof {
            assert(player@.ranges.take(i as int) =~= player@.ranges);
        }
        self.players.push(player);
        proof {
            assert(self@.players =~= old(self)@.players.push(player@));
            assert(self@.contracts =~= old(self)@.contracts);
        }
        proof {
            assert(self.players@.len() == self.players.len());
            if old(self)@.credit_ok() {
                old(self)@.lemma_credit_kept(self@);
            }
        }
        Ok(())
    }

    /// Enters an open contract of that name, unless one is there.
    pub fn new_contract(&mut self, name: &str) -> (r: Result<(), MarketError>)
        requires
            old(self).wf(),
        ensures
            final(self).wf(),
            old(self)@.credit_ok() ==> final(self)@.credit_ok(),
            r is Ok <==> !old(self)@.has_contract(name@),
            r is Err ==> r == Err::<(), MarketError>(MarketError::DuplicateContract) && final(self)@ == old(self)@,
            r is Ok ==> final(self)@ == (MarketModel {
                contracts: old(self)@.contracts.push(ContractModel { name: name@, outcome: None }),
                ..old(self)@
            }),
    {
        let contract = Contract::new(name);
        self.add_contract(contract)
    }

    /// Enters a participant of that name, without credit and without
    /// ranges, unless one is there.
    pub fn new_player(&mut self, name: &str) -> (r: Result<(), MarketError>)
        requires
            old(self).wf(),
        ensures
            final(self).wf(),
            old(self)@.credit_ok() ==> final(self)@.credit_ok(),
            r is Ok <==> !old(self)@.has_player(name@),
            r is Err ==> r == Err::<(), MarketError>(MarketError::DuplicatePlayer) && final(self)@
                == old(self)@,
            r is Ok ==> final(self)@ == (MarketModel {
                players: old(self)@.players.push(
                    PlayerModel { name: name@, ranges: Seq::empty(), credit_limit: 0 },
                ),
                ..old(self)@
            }),
    {
        let player = Player::new(name);
        self.add_player(player)
    }

    /// Gives the participant `old_name` the name `new_name`. Fails where no
    /// participant has the old name, or another one has the new name.
    pub fn rename_player(&mut self, old_name: &str, new_name: &str) -> (r: Result<
        (),
        MarketError,
    >)
        requires
            old(self).wf(),
        ensures
            final(self).wf(),
            old(self)@.credit_ok() ==> final(self)@.credit_ok(),
            r == Err::<(), MarketError>(MarketError::NoSuchPlayer) <==> !old(self)@.has_player(
                old_name@,
            ),
            r == Err::<(), MarketError>(MarketError::DuplicatePlayer) <==> old(self)@.has_player(
                old_name@,
            ) && old_name@ != new_name@ && old(self)@.has_player(new_name@),
            r is Err ==> final(self)@ == old(self)@ && (r == Err::<(), MarketError>(
                MarketError::NoSuchPlayer,
            ) || r == Err::<(), MarketError>(MarketError::DuplicatePlayer)),
            r is Ok ==> final(self)@ == (MarketModel {
                players: old(self)@.players.update(
                    old(self)@.player_index(old_name@),
                    PlayerModel {
                        name: new_name@,
                        ..old(self)@.players[old(self)@.player_index(old_name@)]
                    },
                ),
                ..old(self)@
            }),
    {
        let player_id = match self.find_player(old_name) {
            Some(player_id) => player_id,
            None => {
                return Err(MarketError::NoSuchPlayer);
            },
        };
        if !str_eq(old_name, new_name) && self.find_player(new_name).is_some() {
            return Err(MarketError::DuplicatePlayer);
        }
        self.players[player_id.0].name = new_name.to_owned();
        proof {
            let i = player_id.0 as int;
            assert(self@.players =~= old(self)@.players.update(
                i,
                PlayerModel { name: new_name@, ..old(self)@.players[i] },
            ));
            assert(self@.contracts =~= old(self)@.contracts);
            assert forall|a: int, b: int|
                0 <= a < self@.players.len() && 0 <= b < self@.players.len() && a
                    != b implies self@.players[a].name != self@.players[b].name by {
                if a != i && b != i {
                    assert(old(self)@.players[a].name != old(self)@.players[b].name);
                } else if a == i {
                    assert(old(self)@.players[b].name != new_name@);
                } else {
                    assert(old(self)@.players[a].name != new_name@);
                }
            }
        }
        proof {
            assert(self.players@.len() == self.players.len());
            if old(self)@.credit_ok() {
                old(self)@.lemma_credit_kept(self@);
            }
        }
        Ok(())
    }

    /// Raises every participant's credit limit by `amount` cents. Fails,
    /// and changes nothing, where `amount` is negative or a limit would
    /// pass the volume limit.
    pub fn increment_credit(&mut self, amount: Price) -> (r: Result<(), MarketError>)
        requires
            old(self).wf(),
        ensures
            final(self).wf(),
            old(self)@.credit_ok() ==> final(self)@.credit_ok(),
            r is Ok <==> amount >= 0 && forall|p: int|
                0 <= p < old(self)@.players.len() ==> (#[trigger] old(self)@.players[p]).credit_limit
                    + amount <= MAX_VOLUME,
            r is Err ==> r == Err::<(), MarketError>(MarketError::InvalidCredit) && final(self)@
                == old(self)@,
            r is Ok ==> final(self)@.contracts == old(self)@.contracts && final(self)@.ious == old(self)@.ious && final(self)@.players.len() == old(self)@.players.len() && forall|p: int|
                0 <= p < old(self)@.players.len() ==> (#[trigger] final(self)@.players[p])
                    == (PlayerModel {
                    credit_limit: old(self)@.players[p].credit_limit + amount,
                    ..old(self)@.players[p]
                }),
    {
        if amount < 0 {
            return Err(MarketError::InvalidCredit);
        }
        let mut i: usize = 0;
        while i < self.players.len()
            invariant
                i <= self.players.len(),
                amount >= 0,
                self.wf(),
                forall|p: int|
                    0 <= p < i ==> (#[trigger] self@.players[p]).credit_limit + amount
                        <= MAX_VOLUME,
            decreases self.players.len() - i,
        {
            assert(self@.players[i as int].wf());
            if self.players[i].credit_limit > MAX_VOLUME - amount {
                return Err(MarketError::InvalidCredit);
            }
            i += 1;
        }
        let mut i: usize = 0;
        while i < self.players.len()
            invariant
                i <= self.players.len(),
                amount >= 0,
                self.wf(),
                self@.contracts == old(self)@.contracts,
                self@.ious == old(self)@.ious,
                self@.players.len() == old(self)@.players.len(),
                forall|p: int|
                    0 <= p < self@.players.len() ==> (#[trigger] old(self)@.players[p]).credit_limit
                        + amount <= MAX_VOLUME,
                forall|p: int|
                    0 <= p < i ==> (#[trigger] self@.players[p]) == (PlayerModel {
                        credit_limit: old(self)@.players[p].credit_limit + amount,
                        ..old(self)@.players[p]
                    }),
                forall|p: int|
                    i <= p < self@.players.len() ==> (#[trigger] self@.players[p]) == old(self)@.players[p],
            decreases self.players.len() - i,
        {
            let ghost before = self@;
            assert(old(self)@.players[i as int].credit_limit + amount <= MAX_VOLUME);
            assert(self@.players[i as int] == old(self)@.players[i as int]);
            self.players[i].credit_limit = self.players[i].credit_limit + amount;
            proof {
                assert(self@.contracts =~= before.contracts);
                assert(self@.players =~= before.players.update(
                    i as int,
                    PlayerModel {
                        credit_limit: before.players[i as int].credit_limit + amount,
                        ..before.players[i as int]
                    },
                ));
                assert forall|p: int| 0 <= p < self@.players.len() implies (
                #[trigger] self@.players[p]).wf() by {
                    assert(before.players[p].wf());
                }
                assert forall|p: int, k: int|
                    0 <= p < self@.players.len() && 0 <= k
                        < self@.players[p].ranges.len() implies self@.open_contract(
                    (#[trigger] self@.players[p].ranges[k]).contract_id,
                ) by {
                    assert(before.open_contract(before.players[p].ranges[k].contract_id));
                }
                assert forall|a: int, b: int|
                    0 <= a < self@.players.len() && 0 <= b < self@.players.len() && a
                        != b implies self@.players[a].name != self@.players[b].name by {
                    assert(before.players[a].name != before.players[b].name);
                }
            }
            i += 1;
        }
        proof {
            assert(self.players@.len() == self.players.len());
            if old(self)@.credit_ok() {
                old(self)@.lemma_credit_kept(self@);
            }
        }
        Ok(())
    }
}

} // verus!
