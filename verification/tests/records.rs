use market::msgs::{created, screen, screen_offer, single_item, Error, Item, Response, Screening};
use market::names::{str_eq, str_lt};
use market::text::{char_is_whitespace, trim};
use market::types::{
    ArgList, Cond, Dollars, Entity, OfferDetails, Offer, Timesecs, Transfer, TransferError, User,
    ID, IOU,
};

#[test]
fn token_list_empty() {
    assert_eq!(ArgList::from("").0.len(), 0);
    assert_eq!(ArgList::from(" ").0.len(), 0);
    assert_eq!(ArgList::from(" \n\t ").0.len(), 0);
}

#[test]
fn token_list_one() {
    assert_eq!(ArgList::from("x").0.len(), 1);
    assert_eq!(ArgList::from(" x ").0.len(), 1);
}

#[test]
fn token_list_two() {
    assert_eq!(ArgList::from("x,y").0.len(), 2);
    assert_eq!(ArgList::from("x,").0.len(), 2);
    assert_eq!(ArgList::from(",y").0.len(), 2);
}

#[test]
fn dollars_ord() {
    assert!(Dollars::from_millibucks(1) > Dollars::zero());
    assert!(Dollars::from_millibucks(-1) < Dollars::zero());
    assert!(Dollars::from_millibucks(0) == Dollars::zero());
}

#[test]
fn user_name_stripped1() {
    assert_eq!(User::user_name_stripped("abcdef"), "abcdef");
    assert_eq!(User::user_name_stripped("abc-def"), "abcdef");
    assert_eq!(User::user_name_stripped(" abc.123 "), "abc123");
}

#[test]
fn token_list_values() {
    assert_eq!(ArgList::from("x.party, x").0, vec!["x.party".to_string(), "x".to_string()]);
    assert_eq!(ArgList::parse(" a ,, b\t").0, vec!["a".to_string(), "".to_string(), "b".to_string()]);
    assert_eq!(ArgList::parse("x,").0, vec!["x".to_string(), "".to_string()]);
}

#[test]
fn token_list_join() {
    assert_eq!(ArgList::from("party,person").join(), "party,person");
    assert_eq!(ArgList::from(" a , b ,c").join(), "a,b,c");
    assert_eq!(ArgList::from("").join(), "");
    assert_eq!(ArgList::from("x").join(), "x");
}

#[test]
fn trim_drops_white_space_at_both_ends() {
    assert_eq!(trim("  a b \n"), "a b");
    assert_eq!(trim("\u{2003}x\u{3000}"), "x");
    assert_eq!(trim(" \t "), "");
    assert_eq!(trim(""), "");
    assert_eq!(trim("x"), "x");
}

#[test]
fn white_space_is_what_std_calls_white_space() {
    let mut n: u32 = 0;
    while n < 0x3100 {
        if let Some(c) = char::from_u32(n) {
            assert_eq!(char_is_whitespace(c), c.is_whitespace());
        }
        n += 1;
    }
}

#[test]
fn names_compare_as_strings_do() {
    let names = ["", "a", "ab", "b", "B", "Biden", "Buttigieg", "Warren", "é", "z"];
    for a in names.iter() {
        for b in names.iter() {
            assert_eq!(str_lt(a, b), a < b);
            assert_eq!(str_eq(a, b), a == b);
        }
    }
}

#[test]
fn user_name_stripped_lowers_capitals() {
    assert_eq!(User::user_name_stripped("MrFoo"), "mrfoo");
    assert_eq!(User::user_name_stripped("A_b-C.9"), "abc9");
    assert_eq!(User::user_name_stripped("é!"), "");
}

#[test]
fn valid_user_name_stripped_cases() {
    assert_eq!(User::valid_user_name_stripped("Mr_Foo"), Some("mrfoo".to_string()));
    assert_eq!(User::valid_user_name_stripped("mr--foo"), Some("mrfoo".to_string()));
    assert_eq!(User::valid_user_name_stripped("mr foo"), None);
    assert_eq!(User::valid_user_name_stripped("-._"), None);
    assert_eq!(User::valid_user_name_stripped(""), None);
    assert_eq!(User::valid_user_name_stripped("é"), None);
    assert!(User::valid_user_name_char('.'));
    assert!(!User::valid_user_name_char(' '));
}

#[test]
fn millibucks_round_trip() {
    assert_eq!(Dollars::from_millibucks(340).to_millibucks(), 340);
    assert_eq!(Dollars::one().to_millibucks(), 1000);
    assert_eq!((Dollars::from_millibucks(120) + Dollars::from_millibucks(50)).to_millibucks(), 170);
    assert_eq!((Dollars::from_millibucks(120) - Dollars::from_millibucks(50)).to_millibucks(), 70);
}

fn details(buy: i64, sell: i64) -> OfferDetails {
    OfferDetails {
        offer_buy_price: Dollars::from_millibucks(buy),
        offer_sell_price: Dollars::from_millibucks(sell),
        offer_buy_quantity: 100,
        offer_sell_quantity: 200,
    }
}

#[test]
fn offer_details_valid() {
    assert!(details(340, 450).valid());
    assert!(details(0, 1000).valid());
    assert!(!details(450, 450).valid());
    assert!(!details(-1, 450).valid());
    assert!(!details(340, 1001).valid());
    assert_eq!(screen_offer(&details(340, 450)), None);
    assert_eq!(screen_offer(&details(450, 340)), Some(Error::InvalidOfferDetails));
}

fn iou(value: i64, void: bool) -> IOU {
    IOU {
        iou_issuer: ID("foo".to_string()),
        iou_holder: ID("bar".to_string()),
        iou_value: Dollars::from_millibucks(value),
        iou_cond_id: Some(ID("cond".to_string())),
        iou_cond_flag: true,
        iou_cond_time: Some(Timesecs::from(7)),
        iou_split: None,
        iou_void: void,
    }
}

fn transfer(shares: &[(&str, i64)]) -> Transfer {
    let mut t = Transfer::new();
    for (name, value) in shares.iter() {
        t.insert(ID(name.to_string()), Dollars::from_millibucks(*value));
    }
    t
}

#[test]
fn iou_valid() {
    assert_eq!(iou(170, false).valid(), Ok(()));
    assert_eq!(iou(0, false).valid(), Err(TransferError::ValueNotPositive));
    assert_eq!(iou(-5, false).valid(), Err(TransferError::ValueNotPositive));
}

#[test]
fn transfer_valid() {
    let old = iou(170, false);
    assert_eq!(transfer(&[("foo", 120), ("bar", 50)]).valid(&old), Ok(()));
    assert_eq!(transfer(&[("foo", 170)]).valid(&old), Ok(()));
    assert_eq!(transfer(&[("foo", 120), ("bar", 50)]).valid(&iou(170, true)), Err(TransferError::Void));
    assert_eq!(transfer(&[("foo", 0), ("bar", 170)]).valid(&old), Err(TransferError::ShareNotPositive));
    assert_eq!(transfer(&[("foo", 120), ("bar", 51)]).valid(&old), Err(TransferError::ShareTooLarge));
    assert_eq!(transfer(&[("foo", 171), ("bar", 0)]).valid(&old), Err(TransferError::ShareTooLarge));
    assert_eq!(transfer(&[("foo", 120), ("bar", 49)]).valid(&old), Err(TransferError::SharesTooSmall));
    assert_eq!(transfer(&[]).valid(&old), Err(TransferError::SharesTooSmall));
    assert_eq!(TransferError::ShareTooLarge.message(), "transfer value too large");
}

#[test]
fn transfer_insert_replaces_a_share() {
    let mut t = Transfer::new();
    assert_eq!(t.insert(ID("a".to_string()), Dollars::from_millibucks(1)), None);
    assert_eq!(t.insert(ID("b".to_string()), Dollars::from_millibucks(2)), None);
    assert_eq!(
        t.insert(ID("a".to_string()), Dollars::from_millibucks(3)),
        Some(Dollars::from_millibucks(1))
    );
    assert_eq!(t.holders.len(), 2);
    assert_eq!(t.holders[0], (ID("a".to_string()), Dollars::from_millibucks(3)));
}

#[test]
fn transfer_make_ious() {
    let old = iou(170, false);
    let old_id = ID("old".to_string());
    let made = transfer(&[("foo", 120), ("bar", 50)]).make_ious(&old_id, &old).unwrap();
    assert_eq!(made.len(), 2);
    assert_eq!(made[0].iou_issuer, old.iou_issuer);
    assert_eq!(made[0].iou_holder, ID("foo".to_string()));
    assert_eq!(made[0].iou_value, Dollars::from_millibucks(120));
    assert_eq!(made[0].iou_cond_id, old.iou_cond_id);
    assert_eq!(made[0].iou_cond_flag, true);
    assert_eq!(made[0].iou_cond_time, old.iou_cond_time);
    assert_eq!(made[0].iou_split, Some(old_id.clone()));
    assert!(made[0].iou_void);
    assert_eq!(made[1].iou_holder, ID("bar".to_string()));
    assert_eq!(made[1].iou_value, Dollars::from_millibucks(50));
    assert!(!made[1].iou_void);
    let sum: i64 = made.iter().map(|i| i.iou_value.to_millibucks()).sum();
    assert_eq!(sum, old.iou_value.to_millibucks());
}

#[test]
fn transfer_split_gives_each_iou_a_new_identity() {
    let old = iou(170, false);
    let old_id = ID("old".to_string());
    let records = transfer(&[("foo", 120), ("bar", 50)]).split(&old_id, &old).unwrap();
    assert_eq!(records.len(), 2);
    assert_eq!(records[0].1.iou_holder, ID("foo".to_string()));
    assert_eq!(records[1].1.iou_holder, ID("bar".to_string()));
    assert_eq!(records[0].0 .0.len(), 32);
    assert_ne!(records[0].0, records[1].0);
    assert_eq!(
        transfer(&[("foo", 120)]).split(&old_id, &old),
        Err(TransferError::SharesTooSmall)
    );
}

#[test]
fn new_identities_differ() {
    let a = ID::new();
    let b = ID::new();
    assert_eq!(a.0.len(), 32);
    assert!(a.0.chars().all(|c| c.is_ascii_hexdigit()));
    assert_ne!(a, b);
    assert_eq!(a.copy(), a);
}

#[test]
fn parse_datetime_gives_seconds_of_universal_time() {
    assert_eq!(Timesecs::parse_datetime("1970-01-01 00:00:00").unwrap(), Timesecs::from(0));
    assert_eq!(
        Timesecs::parse_datetime("2019-11-10 18:30:00").unwrap(),
        Timesecs::from(1573410600)
    );
    assert_eq!(Timesecs::parse_datetime("2019-11-10 18:30:00").unwrap().seconds(), 1573410600);
    assert!(Timesecs::parse_datetime("2019-11-10").is_err());
    assert!(Timesecs::parse_datetime("yesterday").is_err());
    assert!(Timesecs::parse_datetime("2019-13-10 18:30:00").is_err());
}

#[test]
fn now_is_after_2020() {
    assert!(Timesecs::now().seconds() > 1577836800);
}

#[test]
fn cond_columns() {
    let a = ID("a".to_string());
    let b = ID("b".to_string());
    let p = ID("p".to_string());
    let none = Cond { cond_pred: p.clone(), cond_args: vec![] };
    let one = Cond { cond_pred: p.clone(), cond_args: vec![a.clone()] };
    let two = Cond { cond_pred: p.clone(), cond_args: vec![a.clone(), b.clone()] };
    let three = Cond { cond_pred: p.clone(), cond_args: vec![a.clone(), b.clone(), a.clone()] };
    assert_eq!(none.argument_columns(), Some((None, None)));
    assert_eq!(one.argument_columns(), Some((Some(a.clone()), None)));
    assert_eq!(two.argument_columns(), Some((Some(a.clone()), Some(b.clone()))));
    assert_eq!(three.argument_columns(), None);
    assert_eq!(Cond::from_columns(p.clone(), Some(a.clone()), Some(b.clone())), two);
    assert_eq!(Cond::from_columns(p.clone(), Some(a.clone()), None), one);
    assert_eq!(Cond::from_columns(p.clone(), None, Some(b.clone())), none);
    assert_eq!(Cond::from_columns(p.clone(), None, None), none);
}

#[test]
fn screening_of_items() {
    let user = |name: &str| Item::User(User { user_name: name.to_string(), user_locked: false });
    assert_eq!(screen(&user("MrFoo")), Screening::UniqueName("mrfoo".to_string()));
    assert_eq!(screen(&user("Mr Foo")), Screening::Refused(Error::InvalidUserName));
    assert_eq!(screen(&user("...")), Screening::Refused(Error::InvalidUserName));
    assert_eq!(screen(&Item::IOU(iou(170, false))), Screening::Clear);
    assert_eq!(screen(&Item::IOU(iou(0, false))), Screening::Invalid(TransferError::ValueNotPositive));
    let offer = |buy: i64, sell: i64| {
        Item::Offer(Offer {
            offer_user: ID("u".to_string()),
            offer_cond_id: ID("c".to_string()),
            offer_cond_time: None,
            offer_details: details(buy, sell),
        })
    };
    assert_eq!(screen(&offer(340, 450)), Screening::Clear);
    assert_eq!(screen(&offer(450, 340)), Screening::Refused(Error::InvalidOfferDetails));
    let entity = Item::Entity(Entity {
        entity_name: "Jeb Bush".to_string(),
        entity_type: "person".to_string(),
    });
    assert_eq!(screen(&entity), Screening::Clear);
}

#[test]
fn responses() {
    let id = ID("x".to_string());
    assert_eq!(created(Ok(id.clone())), Response::Created(id.clone()));
    assert_eq!(created(Err(Error::CannotCreateUser)), Response::Error(Error::CannotCreateUser));
    assert_eq!(Response::Created(id.clone()).unwrap_id(), id);
    let items = single_item(id.clone(), iou(170, true));
    assert_eq!(items, vec![(id.clone(), Item::IOU(iou(170, true)))]);
}

#[test]
fn an_iou_is_made_void_once() {
    let made = iou(170, false).voided().unwrap();
    assert!(made.iou_void);
    assert_eq!(made.iou_value, Dollars::from_millibucks(170));
    assert_eq!(made.iou_holder, ID("bar".to_string()));
    assert_eq!(made.clone().voided(), Err(TransferError::AlreadyVoid));
    assert_eq!(TransferError::AlreadyVoid.message(), "IOU is already void");
}
