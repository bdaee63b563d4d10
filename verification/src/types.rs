//! The records that the exchange keeps besides the ledger of a session:
//! users and their identities, IOUs and their transfer, offers, and the
//! entities, relations and predicates that conditions are made of.

use crate::text::{
    char_is_ascii_alphanumeric, char_lower, is_ascii_alphanumeric, joined, pieces, split, stripped,
    trim, trimmed,
};
use vstd::prelude::*;
use vstd::std_specs::cmp::PartialEqSpecImpl;
use vstd::std_specs::convert::FromSpecImpl;
use vstd::std_specs::ops::{AddSpecImpl, SubSpecImpl};
use vstd::string::StrSliceExecFns;
use vstd::string::StringExecFns;

verus! {

/// `String::push`: the string grows by the character at its end.
pub assume_specification[ String::push ](s: &mut String, ch: char)
    ensures
        final(s)@ == old(s)@.push(ch),
;

/// The identity of a record.
#[derive(Debug, Clone, Hash)]
pub struct ID(pub String);

impl PartialEq for ID {
    fn eq(&self, other: &Self) -> (r: bool) {
        self.0 == other.0
    }
}

impl PartialEqSpecImpl for ID {
    open spec fn obeys_eq_spec() -> bool {
        true
    }

    open spec fn eq_spec(&self, other: &Self) -> bool {
        self.0@ == other.0@
    }
}

impl Eq for ID {

}

impl View for ID {
    type V = Seq<char>;

    open spec fn view(&self) -> Seq<char> {
        self.0@
    }
}

/// `uuid::Uuid::new_v4`, written in the simple form: a random identifier
/// as 32 hexadecimal digits. Which digits they are is not stated.
#[verifier::external_body]
fn random_id_text() -> (r: String)
    ensures
        r@.len() == 32,
{
    uuid::Uuid::new_v4().simple().to_string()
}

impl ID {
    /// A new identity, drawn at random: 32 characters.
    pub fn new() -> (r: ID)
        ensures
            r@.len() == 32,
    {
        ID(random_id_text())
    }

    /// A copy of the identity.
    pub fn copy(&self) -> (r: ID)
        ensures
            r == *self,
    {
        ID(self.0.clone())
    }
}

/// A copy of an identity that may be absent.
pub fn copy_id(id: &Option<ID>) -> (r: Option<ID>)
    ensures
        r == *id,
{
    match id {
        Some(id) => Some(id.copy()),
        None => None,
    }
}

/// An amount of money, measured in thousandths of a dollar.
#[derive(Debug, Clone, Copy, PartialEq, Eq, Structural, PartialOrd, Ord)]
pub struct Dollars(pub i64);

impl Dollars {
    /// No money.
    pub fn zero() -> (r: Self)
        ensures
            r == Dollars(0),
    {
        Dollars(0)
    }

    /// One dollar.
    pub fn one() -> (r: Self)
        ensures
            r == Dollars(1000),
    {
        Dollars(1000)
    }

    /// The amount of `m` thousandths of a dollar.
    pub fn from_millibucks(m: i64) -> (r: Self)
        ensures
            r == Dollars(m),
    {
        Dollars(m)
    }

    /// The amount in thousandths of a dollar.
    pub fn to_millibucks(&self) -> (m: i64)
        ensures
            m == self.0,
    {
        self.0
    }
}

impl core::ops::Add for Dollars {
    type Output = Dollars;

    fn add(self, other: Dollars) -> (r: Dollars) {
        Dollars(self.0 + other.0)
    }
}

impl AddSpecImpl for Dollars {
    open spec fn obeys_add_spec() -> bool {
        true
    }

    open spec fn add_req(self, other: Dollars) -> bool {
        i64::MIN <= self.0 + other.0 <= i64::MAX
    }

    open spec fn add_spec(self, other: Dollars) -> Dollars {
        Dollars((self.0 + other.0) as i64)
    }
}

impl core::ops::Sub for Dollars {
    type Output = Dollars;

    fn sub(self, other: Dollars) -> (r: Dollars) {
        Dollars(self.0 - other.0)
    }
}

impl SubSpecImpl for Dollars {
    open spec fn obeys_sub_spec() -> bool {
        true
    }

    open spec fn sub_req(self, other: Dollars) -> bool {
        i64::MIN <= self.0 - other.0 <= i64::MAX
    }

    open spec fn sub_spec(self, other: Dollars) -> Dollars {
        Dollars((self.0 - other.0) as i64)
    }
}

/// A point in time, in seconds since the start of 1970.
#[derive(Debug, Clone, Copy, PartialEq, Eq, Structural)]
pub struct Timesecs(pub i64);

impl From<i64> for Timesecs {
    fn from(t: i64) -> (r: Timesecs) {
        Timesecs(t)
    }
}

impl FromSpecImpl<i64> for Timesecs {
    open spec fn obeys_from_spec() -> bool {
        true
    }

    open spec fn from_spec(t: i64) -> Timesecs {
        Timesecs(t)
    }
}

/// The error of the date parser.
#[verifier::external_type_specification]
#[verifier::external_body]
pub struct ExParseError(time::ParseError);

/// Why a text is no date and time.
#[derive(Debug)]
pub struct DatetimeError {
    pub cause: time::ParseError,
}

/// The seconds from the start of 1970 to the date and time that a text
/// gives as year, month, day, hour, minute and second, taken as universal
/// time; `None` where the text gives none.
pub uninterp spec fn datetime_seconds(s: Seq<char>) -> Option<i64>;

/// `time::get_time`: the seconds of the system clock since the start of
/// 1970. Nothing is stated of them.
#[verifier::external_body]
fn clock_seconds() -> (r: i64) {
    time::get_time().sec
}

/// `time::strptime` with the format `%Y-%m-%d %H:%M:%S`, and
/// `time::Tm::to_timespec` on what it gives: the seconds of the date and
/// time that the text starts with, or the parser's error. The result
/// depends on the text alone, and `datetime_seconds` is its name.
#[verifier::external_body]
fn strptime_seconds(s: &str) -> (r: Result<i64, time::ParseError>)
    ensures
        r is Ok <==> datetime_seconds(s@) is Some,
        r is Ok ==> datetime_seconds(s@) == Some(r->Ok_0),
{
    match time::strptime(s, "%Y-%m-%d %H:%M:%S") {
        Ok(tm) => Ok(tm.to_timespec().sec),
        Err(e) => Err(e),
    }
}

impl Timesecs {
    /// The seconds since the start of 1970.
    pub fn seconds(&self) -> (r: i64)
        ensures
            r == self.0,
    {
        self.0
    }

    /// The time of the system clock.
    pub fn now() -> Timesecs {
        Timesecs::from(clock_seconds())
    }

    /// The time that a text of the form `2019-11-10 18:30:00` gives, taken
    /// as universal time.
    pub fn parse_datetime(s: &str) -> (r: Result<Timesecs, DatetimeError>)
        ensures
            r is Ok <==> datetime_seconds(s@) is Some,
            r is Ok ==> Some(r->Ok_0.0) == datetime_seconds(s@),
    {
        match strptime_seconds(s) {
            Ok(sec) => Ok(Timesecs::from(sec)),
            Err(cause) => Err(DatetimeError { cause }),
        }
    }
}

/// A list of arguments, written with commas between them.
#[derive(Debug, Clone, PartialEq, Eq)]
pub struct ArgList(pub Vec<String>);

impl View for ArgList {
    type V = Seq<Seq<char>>;

    open spec fn view(&self) -> Seq<Seq<char>> {
        Seq::new(self.0@.len(), |i: int| self.0@[i]@)
    }
}

/// The arguments that a text lists: none where the text is empty or white
/// space only, and otherwise its pieces between the commas, each without
/// leading and trailing white space.
pub open spec fn arguments(s: Seq<char>) -> Seq<Seq<char>> {
    if trimmed(s).len() == 0 {
        Seq::empty()
    } else {
        split(s, ',').map_values(|t: Seq<char>| trimmed(t))
    }
}

impl<'a> From<&'a str> for ArgList {
    fn from(s: &'a str) -> (r: ArgList) {
        ArgList::parse(s)
    }
}

impl<'a> FromSpecImpl<&'a str> for ArgList {
    open spec fn obeys_from_spec() -> bool {
        false
    }

    open spec fn from_spec(s: &'a str) -> ArgList {
        arbitrary()
    }
}

impl ArgList {
    /// The arguments that the text lists.
    pub fn parse(s: &str) -> (r: ArgList)
        ensures
            r@ == arguments(s@),
    {
        if trim(s).unicode_len() == 0 {
            let r = ArgList(Vec::new());
            assert(r@ =~= arguments(s@));
            return r;
        }
        let n = s.unicode_len();
        let mut list: Vec<String> = Vec::new();
        let mut from: usize = 0;
        let mut i: usize = 0;
        let ghost done: Seq<Seq<char>> = Seq::empty();
        while i < n
            invariant
                from <= i <= n,
                n == s@.len(),
                done.len() == list@.len(),
                forall|k: int| 0 <= k < done.len() ==> list@[k]@ == trimmed(#[trigger] done[k]),
                done + pieces(s@, ',', from as int, i as int) == split(s@, ','),
            decreases n - i,
        {
            if s.get_char(i) == ',' {
                let piece = s.substring_char(from, i);
                list.push(trim(piece).to_owned());
                proof {
                    assert((done.push(s@.subrange(from as int, i as int))) + pieces(
                        s@,
                        ',',
                        i + 1,
                        i + 1,
                    ) =~= done + pieces(s@, ',', from as int, i as int));
                    done = done.push(s@.subrange(from as int, i as int));
                }
                from = i + 1;
            }
            i += 1;
        }
        let piece = s.substring_char(from, n);
        list.push(trim(piece).to_owned());
        proof {
            done = done.push(s@.subrange(from as int, n as int));
            assert(done =~= split(s@, ','));
        }
        let r = ArgList(list);
        assert(r@ =~= arguments(s@));
        r
    }

    /// The arguments with a comma between each two of them.
    pub fn join(&self) -> (r: String)
        ensures
            r@ == joined(self@, seq![',']),
    {
        let mut out = String::new();
        let mut i: usize = 0;
        while i < self.0.len()
            invariant
                i <= self.0.len(),
                out@ == joined(self@.take(i as int), seq![',']),
            decreases self.0.len() - i,
        {
            proof {
                assert(self@.take(i + 1).drop_last() =~= self@.take(i as int));
                assert(self@.take(i + 1).last() == self.0@[i as int]@);
                if i == 0 {
                    assert(self@.take(1)[0] == self.0@[0]@);
                }
            }
            if i > 0 {
                out.push(',');
            }
            out.append(self.0[i].as_str());
            proof {
                assert(seq![','] =~= Seq::<char>::empty().push(','));
                if i > 0 {
                    assert(out@ =~= joined(self@.take(i as int), seq![',']) + seq![',']
                        + self.0@[i as int]@);
                } else {
                    assert(out@ =~= self.0@[0]@);
                }
            }
            i += 1;
        }
        proof {
            assert(self@.take(i as int) =~= self@);
        }
        out
    }
}

/// A user of the exchange.
#[derive(Debug, Clone, PartialEq, Eq)]
pub struct User {
    pub user_name: String,
    pub user_locked: bool,
}

/// Whether a user name may hold the character: an ASCII letter or digit,
/// an underscore, a hyphen or a full stop.
pub open spec fn valid_name_char(c: char) -> bool {
    is_ascii_alphanumeric(c) || c == '_' || c == '-' || c == '.'
}

/// Whether a user name may hold every character of `s`.
pub open spec fn valid_name(s: Seq<char>) -> bool {
    forall|i: int| 0 <= i < s.len() ==> valid_name_char(#[trigger] s[i])
}

impl User {
    /// Whether a user name may hold the character.
    pub fn valid_user_name_char(c: char) -> (b: bool)
        ensures
            b == valid_name_char(c),
    {
        char_is_ascii_alphanumeric(c) || c == '_' || c == '-' || c == '.'
    }

    /// The form of a user name under which it must be unique: its letters
    /// and digits, the letters in lower case. `None` where the name holds
    /// a character that it may not hold, or no letter or digit at all.
    pub fn valid_user_name_stripped(user_name: &str) -> (r: Option<String>)
        ensures
            r is Some <==> valid_name(user_name@) && stripped(user_name@).len() > 0,
            r is Some ==> r->Some_0@ == stripped(user_name@),
    {
        let n = user_name.unicode_len();
        let mut i: usize = 0;
        while i < n
            invariant
                i <= n,
                n == user_name@.len(),
                forall|j: int| 0 <= j < i ==> valid_name_char(#[trigger] user_name@[j]),
            decreases n - i,
        {
            if !User::valid_user_name_char(user_name.get_char(i)) {
                return None;
            }
            i += 1;
        }
        let user_name_stripped = User::user_name_stripped(user_name);
        if user_name_stripped.as_str().unicode_len() == 0 {
            None
        } else {
            Some(user_name_stripped)
        }
    }

    /// The letters and digits of a user name, the letters in lower case.
    pub fn user_name_stripped(user_name: &str) -> (r: String)
        ensures
            r@ == stripped(user_name@),
    {
        let n = user_name.unicode_len();
        let mut out = String::new();
        let mut i: usize = 0;
        proof {
            assert(user_name@.take(0) =~= Seq::empty());
        }
        while i < n
            invariant
                i <= n,
                n == user_name@.len(),
                out@ == stripped(user_name@.take(i as int)),
            decreases n - i,
        {
            proof {
                assert(user_name@.take(i + 1).drop_last() =~= user_name@.take(i as int));
            }
            let c = user_name.get_char(i);
            if char_is_ascii_alphanumeric(c) {
                out.push(char_lower(c));
            }
            i += 1;
        }
        proof {
            assert(user_name@.take(i as int) =~= user_name@);
        }
        out
    }
}

/// An account of a user with an outside service.
#[derive(Debug, Clone, PartialEq, Eq)]
pub struct Identity {
    pub identity_user_id: ID,
    pub identity_service: String,
    pub identity_account_name: String,
    pub identity_attested_time: Timesecs,
}

/// A debt of `iou_value` from the issuer to the holder, payable if the
/// condition comes out as `iou_cond_flag` says. An IOU that was split
/// names the one that it came from.
#[derive(Debug, Clone, PartialEq, Eq)]
pub struct IOU {
    pub iou_issuer: ID,
    pub iou_holder: ID,
    pub iou_value: Dollars,
    pub iou_cond_id: Option<ID>,
    pub iou_cond_flag: bool,
    pub iou_cond_time: Option<Timesecs>,
    pub iou_split: Option<ID>,
    pub iou_void: bool,
}

/// Why an IOU or its transfer is refused.
#[derive(Copy, Clone, Debug, PartialEq, Eq, Structural)]
pub enum TransferError {
    /// The value of the IOU is not positive.
    ValueNotPositive,
    /// The IOU is void.
    Void,
    /// A share is not positive.
    ShareNotPositive,
    /// A share is more than what is left of the value.
    ShareTooLarge,
    /// The shares add up to less than the value.
    SharesTooSmall,
    /// The IOU is void already.
    AlreadyVoid,
}

impl TransferError {
    /// The error in words.
    pub fn message(&self) -> (r: &'static str)
        ensures
            r@ == match self {
                TransferError::ValueNotPositive => "IOU value must be positive"@,
                TransferError::Void => "transfer IOU cannot be void"@,
                TransferError::ShareNotPositive => "transfer value must be positive"@,
                TransferError::ShareTooLarge => "transfer value too large"@,
                TransferError::SharesTooSmall => "transfer value too small"@,
                TransferError::AlreadyVoid => "IOU is already void"@,
            },
    {
        match self {
            TransferError::ValueNotPositive => "IOU value must be positive",
            TransferError::Void => "transfer IOU cannot be void",
            TransferError::ShareNotPositive => "transfer value must be positive",
            TransferError::ShareTooLarge => "transfer value too large",
            TransferError::SharesTooSmall => "transfer value too small",
            TransferError::AlreadyVoid => "IOU is already void",
        }
    }
}

impl IOU {
    /// The IOU made void. Fails where it is void already.
    pub fn voided(self) -> (r: Result<IOU, TransferError>)
        ensures
            r is Ok <==> !self.iou_void,
            r is Err ==> r->Err_0 == TransferError::AlreadyVoid,
            r is Ok ==> r->Ok_0 == (IOU { iou_void: true, ..self }),
    {
        if self.iou_void {
            return Err(TransferError::AlreadyVoid);
        }
        let mut iou = self;
        iou.iou_void = true;
        Ok(iou)
    }

    /// Whether the IOU can be entered: its value must be positive.
    pub fn valid(&self) -> (r: Result<(), TransferError>)
        ensures
            r is Ok <==> self.iou_value.0 > 0,
            r is Err ==> r->Err_0 == TransferError::ValueNotPositive,
    {
        if self.iou_value.0 <= 0 {
            return Err(TransferError::ValueNotPositive);
        }
        Ok(())
    }
}

/// The split of an IOU among new holders: each holder with the share that
/// the holder is to have. No holder occurs twice.
#[derive(Debug, Clone, PartialEq, Eq)]
pub struct Transfer {
    pub holders: Vec<(ID, Dollars)>,
}

/// What is left of the value `total` after the shares, taken in their
/// order; or the reason why the first share that is out of order is: not
/// positive, or more than what is left.
pub open spec fn remainder(total: int, shares: Seq<(ID, Dollars)>) -> Result<int, TransferError>
    decreases shares.len(),
{
    if shares.len() == 0 {
        Ok(total)
    } else {
        match remainder(total, shares.drop_last()) {
            Err(e) => Err(e),
            Ok(left) => {
                let value = shares.last().1.0;
                if value <= 0 {
                    Err(TransferError::ShareNotPositive)
                } else if value > left {
                    Err(TransferError::ShareTooLarge)
                } else {
                    Ok(left - value)
                }
            },
        }
    }
}

/// Whether the split is in order: the IOU is not void, every share is
/// positive, and the shares add up to the value of the IOU.
pub open spec fn transfer_check(old_iou: IOU, shares: Seq<(ID, Dollars)>) -> Result<
    (),
    TransferError,
> {
    if old_iou.iou_void {
        Err(TransferError::Void)
    } else {
        match remainder(old_iou.iou_value.0 as int, shares) {
            Err(e) => Err(e),
            Ok(left) => if left != 0 {
                Err(TransferError::SharesTooSmall)
            } else {
                Ok(())
            },
        }
    }
}

/// The sum of the shares.
pub open spec fn shares_sum(shares: Seq<(ID, Dollars)>) -> int
    decreases shares.len(),
{
    if shares.len() == 0 {
        0
    } else {
        shares_sum(shares.drop_last()) + shares.last().1.0
    }
}

/// A split is in order exactly if the IOU is not void, every share is
/// positive, and the shares add up to the value of the IOU.
pub proof fn law_transfer_check(old_iou: IOU, shares: Seq<(ID, Dollars)>)
    ensures
        transfer_check(old_iou, shares) is Ok <==> !old_iou.iou_void && (forall|i: int|
            0 <= i < shares.len() ==> (#[trigger] shares[i]).1.0 > 0) && shares_sum(shares)
            == old_iou.iou_value.0,
{
    lemma_remainder(old_iou.iou_value.0 as int, shares);
}

/// Shares that are in order leave the value less their sum; and shares
/// that are all positive and add up to no more than the value are in
/// order.
pub proof fn lemma_remainder(total: int, shares: Seq<(ID, Dollars)>)
    ensures
        remainder(total, shares) is Ok ==> remainder(total, shares)->Ok_0 == total - shares_sum(
            shares,
        ) && remainder(total, shares)->Ok_0 >= 0 || total < 0,
        remainder(total, shares) is Ok ==> forall|i: int|
            0 <= i < shares.len() ==> (#[trigger] shares[i]).1.0 > 0,
        remainder(total, shares) is Ok ==> remainder(total, shares)->Ok_0 == total - shares_sum(
            shares,
        ),
        (forall|i: int| 0 <= i < shares.len() ==> (#[trigger] shares[i]).1.0 > 0) && shares_sum(
            shares,
        ) <= total ==> remainder(total, shares) is Ok,
        (forall|i: int| 0 <= i < shares.len() ==> (#[trigger] shares[i]).1.0 > 0) ==> shares_sum(
            shares,
        ) >= 0,
    decreases shares.len(),
{
    if shares.len() > 0 {
        let rest = shares.drop_last();
        lemma_remainder(total, rest);
        assert forall|i: int| 0 <= i < rest.len() implies rest[i] == shares[i] by {}
        if remainder(total, shares) is Ok {
            assert forall|i: int| 0 <= i < shares.len() implies (#[trigger] shares[i]).1.0 > 0 by {
                if i < rest.len() {
                    assert(rest[i] == shares[i]);
                }
            }
        }
        if forall|i: int| 0 <= i < shares.len() ==> (#[trigger] shares[i]).1.0 > 0 {
            assert forall|i: int| 0 <= i < rest.len() implies (#[trigger] rest[i]).1.0 > 0 by {
                assert(rest[i] == shares[i]);
            }
            assert(shares[shares.len() - 1].1.0 > 0);
        }
    }
}

/// The IOU for the holder `share.0` with the value `share.1`, split from
/// the IOU `old_iou` with the identity `old_id`: issuer and condition are
/// those of the old IOU, and the new one is void from the start where the
/// holder is the issuer.
pub open spec fn split_iou(old_id: ID, old_iou: IOU, share: (ID, Dollars)) -> IOU {
    IOU {
        iou_issuer: old_iou.iou_issuer,
        iou_holder: share.0,
        iou_value: share.1,
        iou_cond_id: old_iou.iou_cond_id,
        iou_cond_flag: old_iou.iou_cond_flag,
        iou_cond_time: old_iou.iou_cond_time,
        iou_split: Some(old_id),
        iou_void: share.0@ == old_iou.iou_issuer@,
    }
}

impl Transfer {
    /// No holder occurs twice.
    pub open spec fn wf(&self) -> bool {
        forall|i: int, j: int|
            0 <= i < self.holders@.len() && 0 <= j < self.holders@.len() && i != j
                ==> self.holders@[i].0@ != self.holders@[j].0@
    }

    /// A split without holders.
    pub fn new() -> (r: Self)
        ensures
            r.holders@.len() == 0,
            r.wf(),
    {
        Transfer { holders: Vec::new() }
    }

    /// Gives the holder the share `value`, in place of an earlier share of
    /// that holder; returns the earlier share.
    pub fn insert(&mut self, holder: ID, value: Dollars) -> (r: Option<Dollars>)
        requires
            old(self).wf(),
        ensures
            final(self).wf(),
            match r {
                Some(earlier) => exists|i: int|
                    0 <= i < old(self).holders@.len() && old(self).holders@[i].0@ == holder@ && old(
                        self,
                    ).holders@[i].1 == earlier && final(self).holders@ == old(
                        self,
                    ).holders@.update(i, (old(self).holders@[i].0, value)),
                None => (forall|i: int|
                    0 <= i < old(self).holders@.len() ==> old(self).holders@[i].0@ != holder@)
                    && final(self).holders@ == old(self).holders@.push((holder, value)),
            },
    {
        let mut i: usize = 0;
        while i < self.holders.len()
            invariant
                i <= self.holders.len(),
                *self == *old(self),
                self.wf(),
                forall|j: int| 0 <= j < i ==> self.holders@[j].0@ != holder@,
            decreases self.holders.len() - i,
        {
            if self.holders[i].0 == holder {
                let earlier = self.holders[i].1;
                self.holders[i].1 = value;
                proof {
                    assert(self.holders@ =~= old(self).holders@.update(
                        i as int,
                        (old(self).holders@[i as int].0, value),
                    ));
                }
                return Some(earlier);
            }
            i += 1;
        }
        self.holders.push((holder, value));
        None
    }

    /// Whether the IOU can be split so: it must not be void, every share
    /// must be positive, and the shares must add up to its value. The
    /// shares are checked in their order, and the first that is out of
    /// order gives the error.
    pub fn valid(&self, old_iou: &IOU) -> (r: Result<(), TransferError>)
        ensures
            r == transfer_check(*old_iou, self.holders@),
    {
        if old_iou.iou_void {
            return Err(TransferError::Void);
        }
        let mut total: i64 = old_iou.iou_value.0;
        let mut i: usize = 0;
        proof {
            assert(self.holders@.take(0) =~= Seq::empty());
        }
        while i < self.holders.len()
            invariant
                i <= self.holders.len(),
                !old_iou.iou_void,
                remainder(old_iou.iou_value.0 as int, self.holders@.take(i as int)) == Ok::<
                    int,
                    TransferError,
                >(total as int),
            decreases self.holders.len() - i,
        {
            proof {
                assert(self.holders@.take(i + 1).drop_last() =~= self.holders@.take(i as int));
            }
            let value = self.holders[i].1.0;
            if value <= 0 {
                proof {
                    lemma_remainder_prefix(old_iou.iou_value.0 as int, self.holders@, i + 1);
                }
                return Err(TransferError::ShareNotPositive);
            }
            if value > total {
                proof {
                    lemma_remainder_prefix(old_iou.iou_value.0 as int, self.holders@, i + 1);
                }
                return Err(TransferError::ShareTooLarge);
            }
            total = total - value;
            i += 1;
        }
        proof {
            assert(self.holders@.take(i as int) =~= self.holders@);
        }
        if total != 0 {
            return Err(TransferError::SharesTooSmall);
        }
        Ok(())
    }

    /// The IOUs that take the place of the old one: one for each holder,
    /// in the order of the holders, of the holder's share.
    pub fn make_ious(&self, old_id: &ID, old_iou: &IOU) -> (r: Result<Vec<IOU>, TransferError>)
        ensures
            r is Ok,
            r->Ok_0@.len() == self.holders@.len(),
            forall|i: int|
                0 <= i < self.holders@.len() ==> (#[trigger] r->Ok_0@[i]) == split_iou(
                    *old_id,
                    *old_iou,
                    self.holders@[i],
                ),
    {
        let mut ious: Vec<IOU> = Vec::new();
        let mut i: usize = 0;
        while i < self.holders.len()
            invariant
                i <= self.holders.len(),
                ious@.len() == i,
                forall|k: int|
                    0 <= k < i ==> (#[trigger] ious@[k]) == split_iou(
                        *old_id,
                        *old_iou,
                        self.holders@[k],
                    ),
            decreases self.holders.len() - i,
        {
            let user_id = &self.holders[i].0;
            let value = self.holders[i].1;
            let new_iou = IOU {
                iou_issuer: old_iou.iou_issuer.copy(),
                iou_holder: user_id.copy(),
                iou_value: value,
                iou_cond_id: copy_id(&old_iou.iou_cond_id),
                iou_cond_flag: old_iou.iou_cond_flag,
                iou_cond_time: old_iou.iou_cond_time,
                iou_split: Some(old_id.copy()),
                iou_void: *user_id == old_iou.iou_issuer,
            };
            ious.push(new_iou);
            i += 1;
        }
        Ok(ious)
    }
}

impl Transfer {
    /// Splits the IOU `old_iou` with the identity `old_id` among the
    /// holders: where the split is in order, the new IOUs, one for each
    /// holder in the order of the holders, each with a new identity.
    pub fn split(&self, old_id: &ID, old_iou: &IOU) -> (r: Result<Vec<(ID, IOU)>, TransferError>)
        ensures
            r is Ok <==> transfer_check(*old_iou, self.holders@) is Ok,
            r is Err ==> r->Err_0 == transfer_check(*old_iou, self.holders@)->Err_0,
            r is Ok ==> r->Ok_0@.len() == self.holders@.len() && forall|i: int|
                0 <= i < self.holders@.len() ==> (#[trigger] r->Ok_0@[i]).1 == split_iou(
                    *old_id,
                    *old_iou,
                    self.holders@[i],
                ) && r->Ok_0@[i].0@.len() == 32,
    {
        match self.valid(old_iou) {
            Err(e) => {
                return Err(e);
            },
            Ok(()) => {},
        }
        let mut ious = match self.make_ious(old_id, old_iou) {
            Ok(ious) => ious,
            Err(e) => {
                return Err(e);
            },
        };
        let ghost made = ious@;
        let mut records: Vec<(ID, IOU)> = Vec::new();
        while ious.len() > 0
            invariant
                made.len() == self.holders@.len(),
                ious@.len() + records@.len() == made.len(),
                forall|i: int| 0 <= i < ious@.len() ==> ious@[i] == made[i],
                forall|i: int|
                    0 <= i < records@.len() ==> (#[trigger] records@[i]).1 == made[made.len() - 1
                        - i] && records@[i].0@.len() == 32,
            decreases ious@.len(),
        {
            let new_iou = ious.pop().unwrap();
            records.push((ID::new(), new_iou));
        }
        let mut ordered: Vec<(ID, IOU)> = Vec::new();
        while records.len() > 0
            invariant
                records@.len() + ordered@.len() == made.len(),
                forall|i: int|
                    0 <= i < records@.len() ==> (#[trigger] records@[i]).1 == made[made.len() - 1
                        - i] && records@[i].0@.len() == 32,
                forall|i: int|
                    0 <= i < ordered@.len() ==> (#[trigger] ordered@[i]).1 == made[i]
                        && ordered@[i].0@.len() == 32,
            decreases records@.len(),
        {
            let record = records.pop().unwrap();
            ordered.push(record);
        }
        Ok(ordered)
    }
}

/// Shares whose first ones are out of order are out of order for the same
/// reason.
pub proof fn lemma_remainder_prefix(total: int, shares: Seq<(ID, Dollars)>, n: int)
    requires
        0 <= n <= shares.len(),
        remainder(total, shares.take(n)) is Err,
    ensures
        remainder(total, shares) == remainder(total, shares.take(n)),
    decreases shares.len() - n,
{
    if n == shares.len() {
        assert(shares.take(n) =~= shares);
    } else {
        assert(shares.take(n + 1).drop_last() =~= shares.take(n));
        lemma_remainder_prefix(total, shares, n + 1);
    }
}

/// A condition: a predicate applied to entities.
#[derive(Debug, Clone, PartialEq, Eq)]
pub struct Cond {
    pub cond_pred: ID,
    pub cond_args: Vec<ID>,
}

impl Cond {
    /// The first and the second argument of the condition, each if there
    /// is one; `None` where the condition has more than two arguments.
    pub fn argument_columns(&self) -> (r: Option<(Option<ID>, Option<ID>)>)
        ensures
            r is Some <==> self.cond_args@.len() <= 2,
            r is Some ==> (r->Some_0.0 is Some <==> self.cond_args@.len() > 0) && (r->Some_0.1
                is Some <==> self.cond_args@.len() > 1),
            r is Some && self.cond_args@.len() > 0 ==> r->Some_0.0->Some_0 == self.cond_args@[0],
            r is Some && self.cond_args@.len() > 1 ==> r->Some_0.1->Some_0 == self.cond_args@[1],
    {
        if self.cond_args.len() <= 2 {
            let cond_arg1 = if self.cond_args.len() > 0 {
                Some(self.cond_args[0].copy())
            } else {
                None
            };
            let cond_arg2 = if self.cond_args.len() > 1 {
                Some(self.cond_args[1].copy())
            } else {
                None
            };
            Some((cond_arg1, cond_arg2))
        } else {
            None
        }
    }

    /// The condition with that predicate and with the arguments that are
    /// there: the first, and the second only after a first.
    pub fn from_columns(cond_pred: ID, cond_arg1: Option<ID>, cond_arg2: Option<ID>) -> (r: Cond)
        ensures
            r.cond_pred == cond_pred,
            r.cond_args@ == match (cond_arg1, cond_arg2) {
                (Some(a), Some(b)) => seq![a, b],
                (Some(a), None) => seq![a],
                (None, _) => Seq::<ID>::empty(),
            },
    {
        let mut cond_args: Vec<ID> = Vec::new();
        if let Some(arg1) = cond_arg1 {
            cond_args.push(arg1);
            if let Some(arg2) = cond_arg2 {
                cond_args.push(arg2);
                assert(cond_args@ =~= seq![arg1, arg2]);
            } else {
                assert(cond_args@ =~= seq![arg1]);
            }
        }
        Cond { cond_pred, cond_args }
    }
}

/// A standing offer of a user on a condition.
#[derive(Debug, Clone, PartialEq, Eq)]
pub struct Offer {
    pub offer_user: ID,
    pub offer_cond_id: ID,
    pub offer_cond_time: Option<Timesecs>,
    pub offer_details: OfferDetails,
}

/// The prices and quantities of an offer.
#[derive(Debug, Clone, Copy, PartialEq, Eq, Structural)]
pub struct OfferDetails {
    pub offer_buy_price: Dollars,
    pub offer_sell_price: Dollars,
    pub offer_buy_quantity: u32,
    pub offer_sell_quantity: u32,
}

impl OfferDetails {
    /// Whether the prices are in order: from nothing to one dollar, the
    /// buying price below the selling price.
    pub fn valid(&self) -> (b: bool)
        ensures
            b == (0 <= self.offer_buy_price.0 < self.offer_sell_price.0 <= 1000),
    {
        0 <= self.offer_buy_price.0 && self.offer_buy_price.0 < self.offer_sell_price.0
            && self.offer_sell_price.0 <= 1000
    }
}

/// Something that predicates speak of.
#[derive(Debug, Clone, PartialEq, Eq)]
pub struct Entity {
    pub entity_name: String,
    pub entity_type: String,
}

/// A relation from one entity to another.
#[derive(Debug, Clone, PartialEq, Eq)]
pub struct Rel {
    pub rel_type: String,
    pub rel_from: ID,
    pub rel_to: ID,
}

/// A predicate with the kinds of its arguments, and its value once known.
#[derive(Debug, Clone, PartialEq, Eq)]
pub struct Pred {
    pub pred_name: String,
    pub pred_args: ArgList,
    pub pred_value: Option<String>,
}

/// A dependency of one predicate on another.
#[derive(Debug, Clone, PartialEq, Eq)]
pub struct Depend {
    pub depend_type: String,
    pub depend_pred1: ID,
    pub depend_pred2: ID,
    pub depend_vars: ArgList,
    pub depend_args1: ArgList,
    pub depend_args2: ArgList,
}

} // verus!
