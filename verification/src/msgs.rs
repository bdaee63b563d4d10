//! The requests that the exchange takes and the responses that it gives,
//! and what is checked of an item before it is stored.

use crate::text::stripped;
use crate::types::{
    valid_name, Cond, Depend, Entity, Identity, Offer, OfferDetails, Pred, Rel, Transfer,
    TransferError, User, ID, IOU,
};
use vstd::prelude::*;

verus! {

/// A request to the exchange.
#[derive(Debug, Clone, PartialEq, Eq)]
pub enum Request {
    Create(Item),
    Update { id: ID, item_update: ItemUpdate },
    Query(Query),
}

/// A record of one of the kinds that the exchange stores.
#[derive(Debug, Clone, PartialEq, Eq)]
pub enum Item {
    User(User),
    Identity(Identity),
    IOU(IOU),
    Cond(Cond),
    Offer(Offer),
    Entity(Entity),
    Rel(Rel),
    Pred(Pred),
    Depend(Depend),
}

/// A change to a stored record: new details for an offer, the split of an
/// IOU among new holders, or the cancelling of an IOU.
#[derive(Debug, Clone, PartialEq, Eq)]
pub enum ItemUpdate {
    Offer(OfferDetails),
    Transfer(Transfer),
    Void,
}

/// A question for all records of one kind.
#[derive(Debug, Clone, Copy, PartialEq, Eq, Structural)]
pub enum Query {
    AllUser,
    AllIOU,
    AllCond,
    AllOffer,
    AllEntity,
    AllRel,
    AllPred,
    AllDepend,
}

/// Why the exchange turned a request down.
#[derive(Debug, Clone, Copy, PartialEq, Eq, Structural)]
pub enum Error {
    InvalidUserName,
    CannotCreateUser,
    InvalidOfferDetails,
}

/// The answer to a request.
#[derive(Debug, Clone, PartialEq, Eq)]
pub enum Response {
    Created(ID),
    Updated,
    Items(Vec<(ID, Item)>),
    Error(Error),
}

impl Response {
    /// The identity that a `Created` response carries.
    pub fn unwrap_id(self) -> (id: ID)
        requires
            self is Created,
        ensures
            id == self->Created_0,
    {
        match self {
            Response::Created(id) => id,
            _ => vstd::pervasive::unreached(),
        }
    }
}

/// A record that can stand as an item.
pub trait ToItem: Sized {
    /// The record as an item.
    spec fn item(self) -> Item;

    /// The record as an item.
    fn to_item(self) -> (r: Item)
        ensures
            r == self.item(),
    ;
}

impl ToItem for User {
    open spec fn item(self) -> Item {
        Item::User(self)
    }

    fn to_item(self) -> (r: Item) {
        Item::User(self)
    }
}

impl ToItem for IOU {
    open spec fn item(self) -> Item {
        Item::IOU(self)
    }

    fn to_item(self) -> (r: Item) {
        Item::IOU(self)
    }
}

impl ToItem for Cond {
    open spec fn item(self) -> Item {
        Item::Cond(self)
    }

    fn to_item(self) -> (r: Item) {
        Item::Cond(self)
    }
}

impl ToItem for Offer {
    open spec fn item(self) -> Item {
        Item::Offer(self)
    }

    fn to_item(self) -> (r: Item) {
        Item::Offer(self)
    }
}

impl ToItem for Entity {
    open spec fn item(self) -> Item {
        Item::Entity(self)
    }

    fn to_item(self) -> (r: Item) {
        Item::Entity(self)
    }
}

impl ToItem for Rel {
    open spec fn item(self) -> Item {
        Item::Rel(self)
    }

    fn to_item(self) -> (r: Item) {
        Item::Rel(self)
    }
}

impl ToItem for Pred {
    open spec fn item(self) -> Item {
        Item::Pred(self)
    }

    fn to_item(self) -> (r: Item) {
        Item::Pred(self)
    }
}

impl ToItem for Depend {
    open spec fn item(self) -> Item {
        Item::Depend(self)
    }

    fn to_item(self) -> (r: Item) {
        Item::Depend(self)
    }
}

/// The one record `t` under the identity `id`, as a list of items.
pub fn single_item<T: ToItem>(id: ID, t: T) -> (items: Vec<(ID, Item)>)
    ensures
        items@ == seq![(id, t.item())],
{
    let mut items: Vec<(ID, Item)> = Vec::new();
    items.push((id, t.to_item()));
    assert(items@ =~= seq![(id, t.item())]);
    items
}

/// What stands between an item and its place in the store.
#[derive(Debug, Clone, PartialEq, Eq)]
pub enum Screening {
    /// Nothing: the item can be stored.
    Clear,
    /// The item is a user, and can be stored if no user is stored under
    /// this stripped name.
    UniqueName(String),
    /// The request is turned down.
    Refused(Error),
    /// The item is an IOU that is out of order.
    Invalid(TransferError),
}

/// What creating an item takes. A user must have a valid name, and the
/// stripped name must still be free; an IOU must have a positive value; an
/// offer must have its prices in order. Every other item can be stored as
/// it is.
pub open spec fn screening(item: Item) -> Screening {
    match item {
        Item::User(user) => if valid_name(user.user_name@) && stripped(user.user_name@).len()
            > 0 {
            Screening::Clear
        } else {
            Screening::Refused(Error::InvalidUserName)
        },
        Item::IOU(iou) => if iou.iou_value.0 > 0 {
            Screening::Clear
        } else {
            Screening::Invalid(TransferError::ValueNotPositive)
        },
        Item::Offer(offer) => if 0 <= offer.offer_details.offer_buy_price.0
            < offer.offer_details.offer_sell_price.0 <= 1000 {
            Screening::Clear
        } else {
            Screening::Refused(Error::InvalidOfferDetails)
        },
        _ => Screening::Clear,
    }
}

/// What creating the item takes: as `screening` says, and for a user
/// whose name is valid the stripped name that must still be free.
pub fn screen(item: &Item) -> (r: Screening)
    ensures
        match r {
            Screening::UniqueName(name) => item is User && screening(*item) == Screening::Clear
                && name@ == stripped(item->User_0.user_name@),
            Screening::Clear => !(item is User) && screening(*item) == Screening::Clear,
            _ => r == screening(*item),
        },
{
    match item {
        Item::User(user) => match User::valid_user_name_stripped(user.user_name.as_str()) {
            Some(user_name_stripped) => Screening::UniqueName(user_name_stripped),
            None => Screening::Refused(Error::InvalidUserName),
        },
        Item::IOU(iou) => match iou.valid() {
            Ok(()) => Screening::Clear,
            Err(e) => Screening::Invalid(e),
        },
        Item::Offer(offer) => if offer.offer_details.valid() {
            Screening::Clear
        } else {
            Screening::Refused(Error::InvalidOfferDetails)
        },
        _ => Screening::Clear,
    }
}

/// Why new details for an offer are turned down, if they are: their prices
/// must be in order.
pub fn screen_offer(details: &OfferDetails) -> (r: Option<Error>)
    ensures
        r == if 0 <= details.offer_buy_price.0 < details.offer_sell_price.0 <= 1000 {
            None
        } else {
            Some(Error::InvalidOfferDetails)
        },
{
    if details.valid() {
        None
    } else {
        Some(Error::InvalidOfferDetails)
    }
}

/// The response to a request to create an item: the new identity, or the
/// reason why the request was turned down.
pub fn created(outcome: Result<ID, Error>) -> (r: Response)
    ensures
        r == match outcome {
            Ok(id) => Response::Created(id),
            Err(err) => Response::Error(err),
        },
{
    match outcome {
        Ok(id) => Response::Created(id),
        Err(err) => Response::Error(err),
    }
}

} // verus!
