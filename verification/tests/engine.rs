use market::exposure::{ContractExposure, Exposure};
use market::ledger::{Condition, ContractID, Iou, IouStatus, PlayerID, MAX_VOLUME};
use market::market::{Contract, Market, MarketError, Player, Range};
use market::matching::SessionError;
use market::offers::{
    goes_before, rank_crossings, select_crossing, ContractOffers, Crossing, Offers, Quote,
};
use market::report::{decimal_text, format_cents};
use market::session::{settle, Session, Trade};

fn market(contracts: &[&str], players: &[(&str, i32)]) -> Market {
    let mut m = Market::new();
    for c in contracts.iter() {
        m.new_contract(c).unwrap();
    }
    for (p, credit) in players.iter() {
        let mut player = Player::new(p);
        player.credit_limit = *credit;
        m.add_player(player).unwrap();
    }
    m
}

fn unknown_if(c: usize) -> IouStatus {
    IouStatus::Unknown(Condition::If(ContractID(c)))
}

fn unknown_not(c: usize) -> IouStatus {
    IouStatus::Unknown(Condition::Not(ContractID(c)))
}

#[test]
fn single_cross_scenario() {
    let mut m = market(&["A"], &[("X", 1000), ("Y", 1000)]);
    m.player_ranges("X", vec![("A", 20, 40)]).unwrap();
    m.player_ranges("Y", vec![("A", 50, 70)]).unwrap();
    let x = PlayerID(0);
    let y = PlayerID(1);
    let a = ContractID(0);

    let session = Session::new(&m);
    let offers = session.find_offers(&m);
    assert_eq!(offers.offers.len(), 1);
    assert_eq!(offers.offers[0].0, a);
    assert_eq!(
        offers.offers[0].1.buy,
        vec![
            Quote { price: 20, player_id: x, amount: 1000 },
            Quote { price: 50, player_id: y, amount: 1000 }
        ]
    );
    assert_eq!(
        offers.offers[0].1.sell,
        vec![
            Quote { price: 40, player_id: x, amount: 1000 },
            Quote { price: 70, player_id: y, amount: 1000 }
        ]
    );
    assert_eq!(offers.offers[0].1.best_bid(), Some(50));
    assert_eq!(offers.offers[0].1.best_ask(), Some(40));
    let found = session.find_trades(&m, &offers);
    assert_eq!(
        found,
        vec![Crossing { spread: 10, contract_id: a, buyer_id: y, high: 50, seller_id: x, low: 40 }]
    );

    let report = m.session().unwrap();
    assert_eq!(report.trades, vec![Trade { contract_id: a, trade_units: 18, amount: 810 }]);
    assert_eq!(
        m.ious,
        vec![
            Iou { issuer_id: x, holder_id: y, status: unknown_if(0), amount: 990 },
            Iou { issuer_id: y, holder_id: x, status: unknown_not(0), amount: 810 },
        ]
    );
    assert_eq!(report.spreads, vec![(a, 50, 70)]);

    let ex = m.calc_exposure(x);
    assert_eq!(ex.exposure(a), 990);
    assert_eq!(ex.neg_exposure(a), -810);
    assert_eq!(ex.exposure(a) + ex.neg_exposure(a), 180);
    assert_eq!(ex.total_neg_exposure(), -810);
    assert_eq!(ex.total_exposure_to_contract(a), 990);
    assert_eq!(ex.total_exposure_to_contract_neg(a), -810);
    assert_eq!(ex.outcome(a), -990);
    assert_eq!(ex.otherwise_outcome(), 810);
    let ey = m.calc_exposure(y);
    assert_eq!(ey.exposure(a) + ey.neg_exposure(a), -180);
    assert_eq!(ey.total_exposure_to_contract(a), -990);
    assert_eq!(ey.total_exposure_to_contract_neg(a), 810);
    assert!(ex.total_exposure_to_contract(a) <= 1000);
    assert!(ey.total_exposure_to_contract_neg(a) <= 1000);
}

#[test]
fn equal_bid_and_ask_cross_at_spread_zero() {
    let mut m = market(&["A"], &[("X", 1000), ("Y", 1000)]);
    m.player_ranges("X", vec![("A", 20, 40)]).unwrap();
    m.player_ranges("Y", vec![("A", 40, 60)]).unwrap();
    let session = Session::new(&m);
    let offers = session.find_offers(&m);
    let found = session.find_trades(&m, &offers);
    assert_eq!(found.len(), 1);
    assert_eq!(found[0].spread, 0);
    assert_eq!((found[0].low, found[0].high), (40, 40));
    let report = m.session().unwrap();
    assert_eq!(report.trades[0], Trade { contract_id: ContractID(0), trade_units: 16, amount: 640 });
    assert_eq!(m.ious[0].amount, 960);
    assert_eq!(m.ious[1].amount, 640);
}

#[test]
fn settle_prices_at_the_midpoint_rounded_down() {
    let x = Crossing {
        spread: 11,
        contract_id: ContractID(3),
        buyer_id: PlayerID(1),
        high: 51,
        seller_id: PlayerID(0),
        low: 40,
    };
    let (trade, seller_iou, buyer_iou) = settle(&x, 1000, 1000);
    assert_eq!(trade, Trade { contract_id: ContractID(3), trade_units: 18, amount: 810 });
    assert_eq!(
        seller_iou,
        Iou { issuer_id: PlayerID(0), holder_id: PlayerID(1), status: unknown_if(3), amount: 990 }
    );
    assert_eq!(
        buyer_iou,
        Iou { issuer_id: PlayerID(1), holder_id: PlayerID(0), status: unknown_not(3), amount: 810 }
    );
    let (trade, seller_iou, buyer_iou) = settle(&x, 100, 5000);
    assert_eq!(trade.trade_units, 2);
    assert_eq!(seller_iou.amount + buyer_iou.amount, 200);
    let one = Crossing { high: 1, low: 1, spread: 0, ..x };
    let (trade, seller_iou, buyer_iou) = settle(&one, 100, 100);
    assert_eq!((trade.trade_units, seller_iou.amount, buyer_iou.amount), (1, 99, 1));
    let top = Crossing { high: 99, low: 99, spread: 0, ..x };
    let (trade, seller_iou, buyer_iou) = settle(&top, 100, 100);
    assert_eq!((trade.trade_units, seller_iou.amount, buyer_iou.amount), (1, 1, 99));
}

fn election() -> Market {
    let mut m = market(
        &["Sanders", "Warren", "Biden", "Buttigieg"],
        &[("kwarrtz", 1000), ("flakmaniak", 1000), ("intercal", 1000), ("tanadrin", 1000), ("von", 1000)],
    );
    m.player_ranges(
        "kwarrtz",
        vec![("Warren", 40, 60), ("Biden", 40, 60), ("Sanders", 20, 25), ("Buttigieg", 0, 10)],
    )
    .unwrap();
    m.player_ranges(
        "flakmaniak",
        vec![("Warren", 30, 60), ("Biden", 25, 45), ("Sanders", 10, 30), ("Buttigieg", 0, 8)],
    )
    .unwrap();
    m.player_ranges("intercal", vec![("Warren", 15, 25), ("Biden", 50, 75), ("Sanders", 0, 15)])
        .unwrap();
    m.player_ranges("tanadrin", vec![("Warren", 20, 40), ("Biden", 20, 40), ("Sanders", 10, 20)])
        .unwrap();
    m.player_ranges(
        "von",
        vec![("Warren", 40, 60), ("Biden", 35, 50), ("Sanders", 20, 35), ("Buttigieg", 5, 25)],
    )
    .unwrap();
    m
}

#[test]
fn session_keeps_everyone_within_credit() {
    let mut m = election();
    let report = m.session().unwrap();
    assert!(!report.trades.is_empty());
    for round in 0..3 {
        for p in 0..m.players.len() {
            let e = m.calc_exposure(PlayerID(p));
            let limit = m.players[p].credit_limit;
            for c in 0..m.contracts.len() + 1 {
                assert!(e.total_exposure_to_contract(ContractID(c)) <= limit);
                assert!(e.total_exposure_to_contract_neg(ContractID(c)) <= limit);
            }
            assert!(e.worst_exposure() <= limit);
        }
        m.increment_credit(500 * (round + 1)).unwrap();
        m.session().unwrap();
    }
}

#[test]
fn session_ends_without_a_crossing() {
    let mut m = election();
    let report = m.session().unwrap();
    assert!(!report.spreads.is_empty());
    for (_, bid, ask) in report.spreads.iter() {
        assert!(bid < ask);
    }
    let session = Session::new(&m);
    let offers = session.find_offers(&m);
    assert!(session.find_trades(&m, &offers).is_empty());
    assert_eq!(offers.find_spreads(&m), report.spreads);
    let again = m.session().unwrap();
    assert!(again.trades.is_empty());
    assert_eq!(again.spreads, report.spreads);
}

#[test]
fn each_trade_is_worth_100_a_unit() {
    let mut m = election();
    let report = m.session().unwrap();
    assert_eq!(m.ious.len(), 2 * report.trades.len());
    for (k, trade) in report.trades.iter().enumerate() {
        let if_iou = &m.ious[2 * k];
        let not_iou = &m.ious[2 * k + 1];
        assert!(trade.trade_units > 0);
        assert_eq!(if_iou.amount + not_iou.amount, trade.trade_units * 100);
        assert_eq!(not_iou.amount, trade.amount);
        assert_eq!(if_iou.status, IouStatus::Unknown(Condition::If(trade.contract_id)));
        assert_eq!(not_iou.status, IouStatus::Unknown(Condition::Not(trade.contract_id)));
        assert_eq!(if_iou.issuer_id, not_iou.holder_id);
        assert_eq!(if_iou.holder_id, not_iou.issuer_id);
        assert_ne!(if_iou.issuer_id, if_iou.holder_id);
    }
}

fn figures(e: &Exposure, contracts: usize) -> Vec<(i32, i32, i32, i32)> {
    (0..contracts)
        .map(|c| {
            let c = ContractID(c);
            (
                e.exposure(c),
                e.neg_exposure(c),
                e.total_exposure_to_contract(c),
                e.total_exposure_to_contract_neg(c),
            )
        })
        .collect()
}

#[test]
fn working_snapshots_equal_replay() {
    let mut m = election();
    m.session().unwrap();
    m.contract_outcome("Buttigieg", false).unwrap();
    m.increment_credit(1000).unwrap();
    let mut session = Session::new(&m);
    let extra = [
        Iou { issuer_id: PlayerID(0), holder_id: PlayerID(1), status: unknown_if(1), amount: 70 },
        Iou { issuer_id: PlayerID(1), holder_id: PlayerID(0), status: unknown_not(1), amount: 30 },
        Iou {
            issuer_id: PlayerID(2),
            holder_id: PlayerID(4),
            status: IouStatus::True(Condition::If(ContractID(2))),
            amount: 5,
        },
        Iou {
            issuer_id: PlayerID(3),
            holder_id: PlayerID(2),
            status: IouStatus::Void(Condition::Not(ContractID(0))),
            amount: 9,
        },
    ];
    for iou in extra.iter() {
        session.push_iou(*iou);
    }
    assert_eq!(session.ious, extra.to_vec());
    let mut all = Market::new();
    for c in m.contracts.iter() {
        all.add_contract(Contract { name: c.name.clone(), outcome: c.outcome }).unwrap();
    }
    for p in m.players.iter() {
        all.new_player(&p.name).unwrap();
    }
    all.ious = m.ious.clone();
    all.ious.extend(extra.iter().cloned());
    for p in 0..m.players.len() {
        let replayed = all.calc_exposure(PlayerID(p));
        let working = &session.exposures[p];
        assert_eq!(working.unconditional(), replayed.unconditional());
        assert_eq!(working.contracts(), replayed.contracts());
        assert_eq!(figures(working, 5), figures(&replayed, 5));
        assert_eq!(working.total_neg_exposure(), replayed.total_neg_exposure());
    }
}

#[test]
fn equal_markets_trade_alike() {
    let mut a = election();
    let mut b = election();
    for round in 0..3 {
        let ra = a.session().unwrap();
        let rb = b.session().unwrap();
        assert_eq!(ra.trades, rb.trades);
        assert_eq!(ra.spreads, rb.spreads);
        assert_eq!(a.ious, b.ious);
        a.increment_credit(1000).unwrap();
        b.increment_credit(1000).unwrap();
        if round == 1 {
            a.contract_outcome("Warren", false).unwrap();
            b.contract_outcome("Warren", false).unwrap();
        }
    }
}

#[test]
fn resolution_settles_open_ious_of_the_contract_only() {
    for outcome in [true, false] {
        let mut m = market(&["A", "B"], &[("X", 1000), ("Y", 1000)]);
        m.player_ranges("X", vec![("A", 20, 40), ("B", 10, 20)]).unwrap();
        m.player_ranges("Y", vec![("B", 30, 50)]).unwrap();
        let x = PlayerID(0);
        let y = PlayerID(1);
        let a = ContractID(0);
        let b = ContractID(1);
        m.ious = vec![
            Iou { issuer_id: x, holder_id: y, status: unknown_if(0), amount: 10 },
            Iou { issuer_id: y, holder_id: x, status: unknown_not(0), amount: 20 },
            Iou { issuer_id: x, holder_id: y, status: unknown_if(1), amount: 30 },
            Iou { issuer_id: y, holder_id: x, status: unknown_not(1), amount: 40 },
            Iou { issuer_id: x, holder_id: y, status: IouStatus::Void(Condition::If(a)), amount: 50 },
            Iou { issuer_id: x, holder_id: y, status: IouStatus::True(Condition::Not(a)), amount: 60 },
        ];
        m.contract_outcome("A", outcome).unwrap();
        assert_eq!(m.contracts[0].outcome, Some(outcome));
        assert_eq!(m.contracts[1].outcome, None);
        let (if_a, not_a) = if outcome {
            (IouStatus::True(Condition::If(a)), IouStatus::Void(Condition::Not(a)))
        } else {
            (IouStatus::Void(Condition::If(a)), IouStatus::True(Condition::Not(a)))
        };
        assert_eq!(
            m.ious,
            vec![
                Iou { issuer_id: x, holder_id: y, status: if_a, amount: 10 },
                Iou { issuer_id: y, holder_id: x, status: not_a, amount: 20 },
                Iou { issuer_id: x, holder_id: y, status: unknown_if(1), amount: 30 },
                Iou { issuer_id: y, holder_id: x, status: unknown_not(1), amount: 40 },
                Iou { issuer_id: x, holder_id: y, status: IouStatus::Void(Condition::If(a)), amount: 50 },
                Iou { issuer_id: x, holder_id: y, status: IouStatus::True(Condition::Not(a)), amount: 60 },
            ]
        );
        assert_eq!(m.players[0].ranges, vec![Range { contract_id: b, low: 10, high: 20 }]);
        assert_eq!(m.players[1].ranges, vec![Range { contract_id: b, low: 30, high: 50 }]);
        assert_eq!(m.contract_outcome("A", !outcome), Err(MarketError::ContractResolved));
        assert_eq!(m.contract_outcome("C", outcome), Err(MarketError::NoSuchContract));
        assert_eq!(m.player_ranges("X", vec![("A", 20, 40)]), Err(MarketError::ContractResolved));
    }
}

#[test]
fn status_transitions() {
    let a = ContractID(0);
    let b = ContractID(1);
    let open_if = IouStatus::Unknown(Condition::If(a));
    let open_not = IouStatus::Unknown(Condition::Not(a));
    assert_eq!(open_if.resolve(a, true), IouStatus::True(Condition::If(a)));
    assert_eq!(open_if.resolve(a, false), IouStatus::Void(Condition::If(a)));
    assert_eq!(open_not.resolve(a, true), IouStatus::Void(Condition::Not(a)));
    assert_eq!(open_not.resolve(a, false), IouStatus::True(Condition::Not(a)));
    assert_eq!(open_if.resolve(b, true), open_if);
    assert_eq!(IouStatus::True(Condition::If(a)).resolve(a, false), IouStatus::True(Condition::If(a)));
    assert_eq!(IouStatus::Void(Condition::Not(a)).resolve(a, false), IouStatus::Void(Condition::Not(a)));
    assert_eq!(open_if.decompose(), (&Condition::If(a), None));
    assert_eq!(IouStatus::True(Condition::Not(b)).decompose(), (&Condition::Not(b), Some(true)));
    assert_eq!(IouStatus::Void(Condition::If(b)).decompose(), (&Condition::If(b), Some(false)));
    assert_eq!(Condition::Not(b).contract_id(), b);
    assert!(Condition::Not(b).holds(false));
    assert!(!Condition::If(b).holds(false));
}

#[test]
fn exposure_formulas() {
    let a = ContractID(0);
    let b = ContractID(1);
    let c = ContractID(2);
    let d = ContractID(7);
    let mut e = Exposure::new();
    assert_eq!(e.total_exposure_to_contract(a), 0);
    assert_eq!(e.total_exposure_to_contract_neg(a), 0);
    e.apply_iou_issuer(&IouStatus::Unknown(Condition::If(a)), 300);
    e.apply_iou_holder(&IouStatus::Unknown(Condition::Not(a)), 100);
    e.apply_iou_issuer(&IouStatus::Unknown(Condition::Not(b)), 50);
    e.apply_iou_holder(&IouStatus::Unknown(Condition::If(b)), 20);
    e.apply_iou_issuer(&IouStatus::True(Condition::If(c)), 7);
    e.apply_iou_holder(&IouStatus::True(Condition::Not(c)), 2);
    e.apply_iou_issuer(&IouStatus::Void(Condition::If(c)), 1000);
    e.apply_iou_holder(&IouStatus::Void(Condition::Not(c)), 1000);
    e.add_exposure(c, 40);
    e.add_neg_exposure(c, 15);
    assert_eq!(e.unconditional(), 5);
    assert_eq!(e.contracts(), vec![a, b, c]);
    assert_eq!(e.contract_exposure(a), ContractExposure { exposure: 300, neg_exposure: -100 });
    assert_eq!(e.contract_exposure(b), ContractExposure { exposure: -20, neg_exposure: 50 });
    assert_eq!(e.contract_exposure(c), ContractExposure { exposure: 40, neg_exposure: 15 });
    assert_eq!(e.contract_exposure(d), ContractExposure::zero());
    assert_eq!(e.total_neg_exposure(), -100 + 50 + 15 + 5);
    assert_eq!(e.otherwise_outcome(), 30);
    assert_eq!(e.total_exposure_to_contract(a), 300 - 30 + 100);
    assert_eq!(e.total_exposure_to_contract(b), -20 - 30 - 50);
    assert_eq!(e.total_exposure_to_contract(c), 40 - 30 - 15);
    assert_eq!(e.total_exposure_to_contract(d), -30);
    assert_eq!(e.outcome(a), -370);
    assert_eq!(e.outcome(d), 30);
    assert_eq!(e.total_exposure_to_contract_neg(a), -30 + 25);
    assert_eq!(e.total_exposure_to_contract_neg(b), -30 + 400);
    assert_eq!(e.total_exposure_to_contract_neg(d), -30 + 400);
    assert_eq!(e.worst_exposure(), 370);
    assert_eq!(ContractExposure::exposure(4), ContractExposure { exposure: 4, neg_exposure: 0 });
    assert_eq!(ContractExposure::neg_exposure(4), ContractExposure { exposure: 0, neg_exposure: 4 });
}

#[test]
fn worst_alternative_is_floored_at_zero() {
    let mut e = Exposure::new();
    e.add_exposure(ContractID(0), -50);
    e.add_neg_exposure(ContractID(1), 10);
    assert_eq!(e.total_exposure_to_contract_neg(ContractID(2)), 10);
    assert_eq!(e.total_exposure_to_contract_neg(ContractID(0)), 10);
    assert_eq!(e.worst_exposure(), 10);
}

#[test]
fn market_errors() {
    let mut m = market(&["A", "B"], &[("X", 1000)]);
    assert_eq!(m.new_contract("A"), Err(MarketError::DuplicateContract));
    assert_eq!(m.new_player("X"), Err(MarketError::DuplicatePlayer));
    assert_eq!(
        m.add_contract(Contract { name: "B".to_string(), outcome: Some(true) }),
        Err(MarketError::DuplicateContract)
    );
    assert_eq!(m.add_player(Player::new("X")), Err(MarketError::DuplicatePlayer));
    assert_eq!(m.player_ranges("Z", vec![]), Err(MarketError::NoSuchPlayer));
    assert_eq!(m.player_ranges("X", vec![("C", 10, 20)]), Err(MarketError::NoSuchContract));
    for (low, high) in [(-1, 20), (20, 20), (30, 20), (20, 101)] {
        assert_eq!(m.player_ranges("X", vec![("A", low, high)]), Err(MarketError::InvalidRange));
    }
    m.player_ranges("X", vec![("A", 0, 100)]).unwrap();
    assert_eq!(
        m.player_ranges("X", vec![("B", 1, 2), ("C", 30, 20), ("A", 30, 20)]),
        Err(MarketError::NoSuchContract)
    );
    assert_eq!(m.players[0].ranges, vec![Range { contract_id: ContractID(0), low: 0, high: 100 }]);
    assert_eq!(m.increment_credit(-1), Err(MarketError::InvalidCredit));
    assert_eq!(m.increment_credit(MAX_VOLUME), Err(MarketError::InvalidCredit));
    assert_eq!(m.players[0].credit_limit, 1000);
    m.increment_credit(MAX_VOLUME - 1000).unwrap();
    assert_eq!(m.players[0].credit_limit, MAX_VOLUME);
    assert_eq!(m.rename_player("Z", "Y"), Err(MarketError::NoSuchPlayer));
    m.new_player("Y").unwrap();
    assert_eq!(m.rename_player("X", "Y"), Err(MarketError::DuplicatePlayer));
    m.rename_player("X", "X").unwrap();
    m.rename_player("X", "W").unwrap();
    assert_eq!(m.find_player("W"), Some(PlayerID(0)));
    assert_eq!(m.find_player("X"), None);
    assert_eq!(m.find_contract("B"), Some(ContractID(1)));
    assert_eq!(m.get_player(PlayerID(1)).name, "Y");
    assert_eq!(m.get_contract(ContractID(0)).name, "A");
}

#[test]
fn ranges_are_declared_anew() {
    let mut m = market(&["A", "B", "C"], &[("X", 0)]);
    m.player_ranges("X", vec![("A", 1, 2), ("B", 3, 4)]).unwrap();
    m.player_ranges("X", vec![("C", 5, 6), ("B", 7, 8), ("C", 9, 10)]).unwrap();
    assert_eq!(
        m.players[0].ranges,
        vec![
            Range { contract_id: ContractID(2), low: 9, high: 10 },
            Range { contract_id: ContractID(1), low: 7, high: 8 },
        ]
    );
    let mut p = Player::new("P");
    assert_eq!(p.set_range(ContractID(0), 10, 10), Err(MarketError::InvalidRange));
    p.set_range(ContractID(0), 10, 20).unwrap();
    p.set_range(ContractID(1), 0, 100).unwrap();
    p.set_range(ContractID(0), 30, 40).unwrap();
    assert_eq!(p.find_range(ContractID(1)), Some(1));
    assert_eq!(p.find_range(ContractID(2)), None);
    assert_eq!(p.ranges[0], Range { contract_id: ContractID(0), low: 30, high: 40 });
    p.clear_ranges();
    assert!(p.ranges.is_empty());
}

#[test]
fn offers_below_100_cents_are_not_posted() {
    let mut m = market(&["A"], &[("X", 99), ("Y", 100), ("Z", 0)]);
    for name in ["X", "Y", "Z"] {
        m.player_ranges(name, vec![("A", 10, 20)]).unwrap();
    }
    let session = Session::new(&m);
    let offers = session.find_offers(&m);
    assert_eq!(offers.offers.len(), 1);
    assert_eq!(offers.offers[0].1.buy, vec![Quote { price: 10, player_id: PlayerID(1), amount: 100 }]);
    assert_eq!(offers.offers[0].1.sell, vec![Quote { price: 20, player_id: PlayerID(1), amount: 100 }]);
    assert_eq!(m.player_max_buy_amount(&session, PlayerID(0), ContractID(0)), 99);
    assert_eq!(m.player_max_sell_amount(&session, PlayerID(2), ContractID(0)), 0);
    assert!(!m.check_credit_failure(&session, PlayerID(2)));
}

#[test]
fn book_keeps_one_quote_for_each_slot() {
    let mut offers = Offers::new();
    offers.add_buy_offer(ContractID(4), PlayerID(0), 30, 500);
    offers.add_sell_offer(ContractID(2), PlayerID(0), 60, 400);
    offers.add_buy_offer(ContractID(4), PlayerID(1), 30, 600);
    offers.add_buy_offer(ContractID(4), PlayerID(0), 30, 700);
    offers.add_sell_offer(ContractID(4), PlayerID(0), 50, 100);
    assert_eq!(offers.offers.len(), 2);
    assert_eq!(offers.offers[0].0, ContractID(4));
    assert_eq!(
        offers.offers[0].1.buy,
        vec![
            Quote { price: 30, player_id: PlayerID(0), amount: 700 },
            Quote { price: 30, player_id: PlayerID(1), amount: 600 }
        ]
    );
    assert_eq!(offers.offers[0].1.sell, vec![Quote { price: 50, player_id: PlayerID(0), amount: 100 }]);
    assert_eq!(offers.offers[1].1.best_bid(), None);
    assert_eq!(offers.offers[1].1.best_ask(), Some(60));
    let empty = ContractOffers::new();
    assert!(empty.buy.is_empty() && empty.sell.is_empty());
    let m = market(&["a", "b", "c", "d", "e"], &[("p", 0), ("q", 0)]);
    assert_eq!(offers.find_spreads(&m), vec![(ContractID(2), 0, 60), (ContractID(4), 30, 50)]);
}

fn quotes(list: &[(i32, usize, i32)]) -> Vec<Quote> {
    list.iter()
        .map(|(price, p, amount)| Quote { price: *price, player_id: PlayerID(*p), amount: *amount })
        .collect()
}

#[test]
fn crossing_takes_the_largest_amount_then_the_first_name() {
    let m = market(&["A"], &[("dora", 0), ("bert", 0), ("carl", 0), ("anna", 0)]);
    let book = ContractOffers {
        buy: quotes(&[(50, 0, 300), (50, 1, 400), (50, 2, 400), (40, 3, 900)]),
        sell: quotes(&[(45, 0, 100), (45, 3, 100), (45, 2, 100), (46, 1, 900)]),
    };
    let x = book.crossing(ContractID(0), &m).unwrap();
    assert_eq!(x.buyer_id, PlayerID(1));
    assert_eq!(x.seller_id, PlayerID(3));
}

#[test]
fn crossing_is_priced_from_the_next_level_where_that_still_crosses() {
    let m = market(&["A"], &[("p", 0), ("q", 0), ("r", 0), ("s", 0)]);
    let c = ContractID(0);
    let cross = |buy: &[(i32, usize, i32)], sell: &[(i32, usize, i32)]| {
        ContractOffers { buy: quotes(buy), sell: quotes(sell) }
            .crossing(c, &m)
            .map(|x| (x.low, x.high, x.spread))
    };
    assert_eq!(cross(&[(50, 0, 100)], &[(40, 1, 100)]), Some((40, 50, 10)));
    assert_eq!(cross(&[(50, 0, 100), (48, 2, 100)], &[(40, 1, 100), (44, 3, 100)]), Some((44, 48, 4)));
    assert_eq!(cross(&[(50, 0, 100), (42, 2, 100)], &[(40, 1, 100), (44, 3, 100)]), Some((40, 50, 10)));
    assert_eq!(cross(&[(50, 0, 100), (44, 2, 100)], &[(40, 1, 100), (44, 3, 100)]), Some((40, 50, 10)));
    assert_eq!(cross(&[(50, 0, 100), (45, 2, 100)], &[(40, 1, 100)]), Some((40, 45, 5)));
    assert_eq!(cross(&[(50, 0, 100), (40, 2, 100)], &[(40, 1, 100)]), Some((40, 50, 10)));
    assert_eq!(cross(&[(50, 0, 100)], &[(40, 1, 100), (47, 3, 100)]), Some((47, 50, 3)));
    assert_eq!(cross(&[(50, 0, 100)], &[(40, 1, 100), (50, 3, 100)]), Some((40, 50, 10)));
    assert_eq!(cross(&[(39, 0, 100)], &[(40, 1, 100)]), None);
    assert_eq!(cross(&[], &[(40, 1, 100)]), None);
    assert_eq!(cross(&[(39, 0, 100)], &[]), None);
}

#[test]
fn largest_spread_goes_first_then_the_first_name() {
    let m = market(&["delta", "alpha", "charlie", "bravo"], &[]);
    let x = |c: usize, spread: i32| Crossing {
        spread,
        contract_id: ContractID(c),
        buyer_id: PlayerID(0),
        high: 50 + spread,
        seller_id: PlayerID(1),
        low: 50,
    };
    assert_eq!(select_crossing(&vec![], &m), None);
    assert_eq!(select_crossing(&vec![x(0, 3), x(1, 5), x(2, 4)], &m), Some(x(1, 5)));
    assert_eq!(select_crossing(&vec![x(0, 5), x(2, 5), x(3, 5)], &m), Some(x(3, 5)));
    assert_eq!(select_crossing(&vec![x(0, 5), x(1, 5), x(2, 6), x(3, 6)], &m), Some(x(3, 6)));
}

#[test]
fn resolution_to_true_can_leave_a_player_over_the_limit() {
    let mut m = market(&["A", "B"], &[("X", 600), ("Y", 5000)]);
    m.player_ranges("X", vec![("A", 40, 50), ("B", 40, 50)]).unwrap();
    m.player_ranges("Y", vec![("A", 50, 60), ("B", 50, 60)]).unwrap();
    let report = m.session().unwrap();
    assert!(!report.trades.is_empty());
    assert!(m.check_credit());
    m.contract_outcome("A", true).unwrap();
    let x = m.calc_exposure(PlayerID(0));
    assert!(x.total_exposure_to_contract(ContractID(1)) > 600);
    assert!(!m.check_credit());
    let session = Session::new(&m);
    assert!(m.check_credit_failure(&session, PlayerID(0)));
    assert!(!m.check_credit_failure(&session, PlayerID(1)));
}

#[test]
fn session_fails_where_a_trade_leaves_a_player_over_the_limit() {
    let mut m = market(&["B"], &[("X", 1000), ("Y", 1000)]);
    m.ious = vec![Iou { issuer_id: PlayerID(0), holder_id: PlayerID(1), status: unknown_if(0), amount: 5000 }];
    m.player_ranges("X", vec![("B", 50, 60)]).unwrap();
    m.player_ranges("Y", vec![("B", 30, 40)]).unwrap();
    assert!(!m.check_credit());
    let session = Session::new(&m);
    assert_eq!(m.player_max_buy_amount(&session, PlayerID(0), ContractID(0)), 1000);
    assert_eq!(m.player_max_sell_amount(&session, PlayerID(0), ContractID(0)), 0);
    assert_eq!(m.player_max_sell_amount(&session, PlayerID(1), ContractID(0)), 6000);
    let before = m.ious.clone();
    assert_eq!(m.session().err(), Some(SessionError::CreditExceeded));
    assert_eq!(m.ious, before);
}

#[test]
fn session_goes_on_without_a_player_over_the_limit() {
    let mut m = market(&["B"], &[("X", 1000), ("Y", 1000), ("Z", 1000)]);
    m.ious = vec![Iou { issuer_id: PlayerID(0), holder_id: PlayerID(1), status: unknown_if(0), amount: 5000 }];
    m.player_ranges("Y", vec![("B", 30, 40)]).unwrap();
    m.player_ranges("Z", vec![("B", 50, 60)]).unwrap();
    assert!(!m.check_credit());
    let report = m.session().unwrap();
    assert_eq!(report.trades, vec![Trade { contract_id: ContractID(0), trade_units: 22, amount: 990 }]);
    assert_eq!(m.ious.len(), 3);
    assert_eq!(m.ious[1].issuer_id, PlayerID(1));
    assert_eq!(m.ious[1].holder_id, PlayerID(2));
    assert_eq!(m.ious[1].amount, 1210);
    assert_eq!(m.ious[2].amount, 990);
}

#[test]
fn session_refuses_to_pass_the_volume_limit() {
    let mut m = market(&["A"], &[("X", MAX_VOLUME), ("Y", MAX_VOLUME)]);
    m.player_ranges("X", vec![("A", 20, 40)]).unwrap();
    m.player_ranges("Y", vec![("A", 50, 70)]).unwrap();
    assert_eq!(m.ledger_volume(), 0);
    assert_eq!(m.session().err(), Some(SessionError::LedgerFull));
    assert!(m.ious.is_empty());
}

#[test]
fn ledger_volume_adds_the_amounts() {
    let mut m = election();
    m.session().unwrap();
    let sum: i32 = m.ious.iter().map(|i| i.amount).sum();
    assert!(sum > 0);
    assert_eq!(m.ledger_volume(), sum);
}

#[test]
fn outcomes_that_matter() {
    let mut m = market(&["A", "B", "C"], &[("X", 1000), ("Y", 1000)]);
    m.ious = vec![
        Iou { issuer_id: PlayerID(0), holder_id: PlayerID(1), status: unknown_if(0), amount: 300 },
        Iou { issuer_id: PlayerID(1), holder_id: PlayerID(0), status: unknown_not(0), amount: 100 },
        Iou { issuer_id: PlayerID(0), holder_id: PlayerID(1), status: unknown_not(1), amount: 100 },
    ];
    let x = m.compute_outcomes(PlayerID(0));
    assert_eq!(x.otherwise, 0);
    assert_eq!(
        x.by_contract,
        vec![(-400, ContractID(0)), (100, ContractID(1)), (0, ContractID(2))]
    );
    assert_eq!(x.notable(), vec![(100, ContractID(1)), (-400, ContractID(0))]);
    let y = m.compute_outcomes(PlayerID(1));
    assert_eq!(y.otherwise, 0);
    assert_eq!(y.notable(), vec![(400, ContractID(0)), (-100, ContractID(1))]);
    let nobody = m.compute_outcomes(PlayerID(7));
    assert_eq!((nobody.otherwise, nobody.notable().len()), (0, 0));
    m.ious.push(Iou {
        issuer_id: PlayerID(0),
        holder_id: PlayerID(1),
        status: IouStatus::True(Condition::If(ContractID(2))),
        amount: 100,
    });
    let x = m.compute_outcomes(PlayerID(0));
    assert_eq!(x.otherwise, -100);
    assert_eq!(
        x.by_contract,
        vec![(-500, ContractID(0)), (0, ContractID(1)), (-100, ContractID(2))]
    );
    assert_eq!(x.notable(), vec![(-500, ContractID(0))]);
}

#[test]
fn clearing_price_is_amount_by_units() {
    let trades = vec![
        Trade { contract_id: ContractID(0), trade_units: 18, amount: 810 },
        Trade { contract_id: ContractID(1), trade_units: 5, amount: 100 },
        Trade { contract_id: ContractID(0), trade_units: 4, amount: 190 },
    ];
    assert_eq!(market::report::clearing_price(&trades, ContractID(0)), Some(45));
    assert_eq!(market::report::clearing_price(&trades, ContractID(1)), Some(20));
    assert_eq!(market::report::clearing_price(&trades, ContractID(2)), None);
    assert_eq!(market::report::clearing_price(&vec![], ContractID(0)), None);
}

#[test]
fn cleared_spread_weighs_the_holders_ranges() {
    let mut m = market(&["A", "B"], &[("X", 1000), ("Y", 1000), ("Z", 1000)]);
    m.player_ranges("X", vec![("A", 20, 40)]).unwrap();
    m.player_ranges("Y", vec![("A", 50, 70)]).unwrap();
    assert_eq!(m.cleared_spread(ContractID(0)), None);
    m.ious = vec![
        Iou { issuer_id: PlayerID(0), holder_id: PlayerID(1), status: unknown_if(0), amount: 990 },
        Iou { issuer_id: PlayerID(1), holder_id: PlayerID(0), status: unknown_not(0), amount: 810 },
        Iou { issuer_id: PlayerID(0), holder_id: PlayerID(2), status: unknown_if(0), amount: 10 },
        Iou { issuer_id: PlayerID(2), holder_id: PlayerID(1), status: unknown_not(0), amount: 90 },
        Iou { issuer_id: PlayerID(2), holder_id: PlayerID(1), status: unknown_not(1), amount: 5 },
    ];
    let value = 990 + 10;
    let price = 990 * 70 / 100 + 10 * 100 / 100;
    let neg_value = 810 + 90;
    let neg_price = 810 * 20 / 100 + 90 * 50 / 100;
    assert_eq!(m.cleared_spread(ContractID(0)), Some((neg_price * 100 / neg_value, price * 100 / value)));
    assert_eq!(m.cleared_spread(ContractID(0)), Some((23, 70)));
    assert_eq!(m.cleared_spread(ContractID(1)), None);
}

#[test]
fn a_player_may_bring_ranges_for_open_contracts_only() {
    let mut m = market(&["A", "B"], &[("X", 1000)]);
    m.contract_outcome("B", true).unwrap();
    let with = |name: &str, c: usize| {
        let mut p = Player::new(name);
        p.set_range(ContractID(c), 10, 20).unwrap();
        p
    };
    assert_eq!(m.add_player(with("X", 0)), Err(MarketError::DuplicatePlayer));
    assert_eq!(m.add_player(with("X", 5)), Err(MarketError::DuplicatePlayer));
    assert_eq!(m.add_player(with("Y", 2)), Err(MarketError::NoSuchContract));
    assert_eq!(m.add_player(with("Y", 1)), Err(MarketError::ContractResolved));
    let mut both = with("Y", 1);
    both.set_range(ContractID(9), 10, 20).unwrap();
    assert_eq!(m.add_player(both), Err(MarketError::ContractResolved));
    assert_eq!(m.players.len(), 1);
    assert_eq!(m.add_player(with("Y", 0)), Ok(()));
    assert_eq!(m.players[1].ranges, vec![Range { contract_id: ContractID(0), low: 10, high: 20 }]);
    assert_eq!(m.players[1].credit_limit, 0);
}

#[test]
fn cents_are_written_as_dollars() {
    assert_eq!(format_cents(990), "$9.90");
    assert_eq!(format_cents(-5), "-$0.05");
    assert_eq!(format_cents(0), "$0.00");
    assert_eq!(format_cents(100), "$1.00");
    assert_eq!(format_cents(123456), "$1234.56");
    assert_eq!(format_cents(-81000), "-$810.00");
    assert_eq!(format_cents(i32::MAX), "$21474836.47");
    assert_eq!(format_cents(i32::MIN), "-$21474836.48");
    assert_eq!(decimal_text(0), "0");
    assert_eq!(decimal_text(907), "907");
    assert_eq!(decimal_text(u64::MAX), "18446744073709551615");
}

#[test]
fn records_can_be_changed_in_place() {
    let mut m = market(&["A"], &[("X", 0)]);
    m.get_player_mut(PlayerID(0)).credit_limit = 250;
    assert_eq!(m.get_player(PlayerID(0)).credit_limit, 250);
    m.get_contract_mut(ContractID(0)).outcome = Some(false);
    assert_eq!(m.get_contract(ContractID(0)).outcome, Some(false));
    assert_eq!(m.player_ranges("X", vec![("A", 1, 2)]), Err(MarketError::ContractResolved));
}

#[test]
fn trades_are_found_best_first() {
    let mut m = market(&["A", "B"], &[("X", 1000), ("Y", 1000)]);
    m.player_ranges("X", vec![("A", 20, 40), ("B", 20, 40)]).unwrap();
    m.player_ranges("Y", vec![("A", 40, 60), ("B", 50, 70)]).unwrap();
    let session = Session::new(&m);
    let offers = session.find_offers(&m);
    assert_eq!(offers.offers[0].0, ContractID(0));
    let found = session.find_trades(&m, &offers);
    assert_eq!(found.len(), 2);
    assert_eq!((found[0].contract_id, found[0].spread), (ContractID(1), 10));
    assert_eq!((found[1].contract_id, found[1].spread), (ContractID(0), 0));
    let report = m.session().unwrap();
    assert_eq!(report.trades[0].contract_id, ContractID(1));
}

#[test]
fn equal_spreads_are_found_in_the_order_of_the_names() {
    for names in [["A", "B"], ["B", "A"]] {
        for declared in [["A", "B"], ["B", "A"]] {
            let mut m = market(&names, &[("X", 1000), ("Y", 1000)]);
            m.player_ranges("X", vec![(declared[0], 20, 40), (declared[1], 20, 40)]).unwrap();
            m.player_ranges("Y", vec![(declared[0], 50, 70), (declared[1], 50, 70)]).unwrap();
            let session = Session::new(&m);
            let offers = session.find_offers(&m);
            let found = session.find_trades(&m, &offers);
            let a = m.find_contract("A").unwrap();
            let b = m.find_contract("B").unwrap();
            assert_eq!(found.iter().map(|x| (x.contract_id, x.spread)).collect::<Vec<_>>(), vec![(a, 10), (b, 10)]);
            assert_eq!(offers.find_spreads(&m).len(), 2);
        }
    }
}

#[test]
fn candidates_are_ranked_by_spread_and_then_by_name() {
    let m = market(&["delta", "alpha", "charlie", "bravo"], &[]);
    let x = |c: usize, spread: i32| Crossing {
        spread,
        contract_id: ContractID(c),
        buyer_id: PlayerID(0),
        high: 50 + spread,
        seller_id: PlayerID(1),
        low: 50,
    };
    assert_eq!(rank_crossings(&vec![], &m), vec![]);
    assert_eq!(
        rank_crossings(&vec![x(0, 5), x(1, 5), x(2, 6), x(3, 6), x(1, 9), x(0, 1)], &m),
        vec![x(1, 9), x(3, 6), x(2, 6), x(1, 5), x(0, 5), x(0, 1)]
    );
    let list = vec![x(2, 4), x(0, 4), x(3, 7), x(1, 4)];
    assert_eq!(select_crossing(&list, &m), Some(rank_crossings(&list, &m)[0]));
    assert!(goes_before(&x(1, 4), &x(0, 4), &m));
    assert!(!goes_before(&x(0, 4), &x(1, 4), &m));
    assert!(goes_before(&x(0, 5), &x(1, 4), &m));
    assert!(!goes_before(&x(0, 4), &x(0, 4), &m));
}

#[test]
fn spreads_leave_resolved_contracts_out_and_go_by_name() {
    let mut m = market(&["delta", "alpha", "charlie", "bravo"], &[("p", 0), ("q", 0)]);
    m.contract_outcome("charlie", true).unwrap();
    let mut offers = Offers::new();
    offers.add_buy_offer(ContractID(0), PlayerID(0), 30, 500);
    offers.add_buy_offer(ContractID(2), PlayerID(0), 60, 500);
    offers.add_sell_offer(ContractID(2), PlayerID(1), 40, 500);
    offers.add_sell_offer(ContractID(3), PlayerID(1), 70, 500);
    offers.add_sell_offer(ContractID(1), PlayerID(1), 55, 500);
    offers.add_buy_offer(ContractID(1), PlayerID(0), 45, 500);
    assert_eq!(
        offers.find_spreads(&m),
        vec![(ContractID(1), 45, 55), (ContractID(3), 0, 70), (ContractID(0), 30, 100)]
    );
    let mut solved = market(&["A"], &[("p", 0)]);
    solved.contract_outcome("A", false).unwrap();
    let mut one = Offers::new();
    one.add_buy_offer(ContractID(0), PlayerID(0), 30, 500);
    assert_eq!(one.find_spreads(&solved), vec![]);
}

#[test]
fn notable_outcomes_are_listed_largest_first() {
    let mut m = market(&["A", "B", "C", "D"], &[("X", 1000), ("Y", 1000)]);
    m.ious = vec![
        Iou { issuer_id: PlayerID(1), holder_id: PlayerID(0), status: unknown_if(0), amount: 50 },
        Iou { issuer_id: PlayerID(1), holder_id: PlayerID(0), status: unknown_if(2), amount: 70 },
        Iou { issuer_id: PlayerID(1), holder_id: PlayerID(0), status: unknown_if(3), amount: 50 },
        Iou { issuer_id: PlayerID(0), holder_id: PlayerID(1), status: unknown_if(1), amount: 20 },
    ];
    let x = m.compute_outcomes(PlayerID(0));
    assert_eq!(
        x.by_contract,
        vec![(50, ContractID(0)), (-20, ContractID(1)), (70, ContractID(2)), (50, ContractID(3))]
    );
    assert_eq!(
        x.notable(),
        vec![(70, ContractID(2)), (50, ContractID(3)), (50, ContractID(0)), (-20, ContractID(1))]
    );
}

#[test]
fn an_iou_held_by_its_issuer_changes_no_snapshot() {
    let mut m = market(&["A"], &[("X", 1000), ("Y", 1000)]);
    m.ious = vec![
        Iou { issuer_id: PlayerID(0), holder_id: PlayerID(1), status: unknown_if(0), amount: 300 },
        Iou { issuer_id: PlayerID(0), holder_id: PlayerID(0), status: unknown_if(0), amount: 50 },
        Iou { issuer_id: PlayerID(1), holder_id: PlayerID(1), status: unknown_not(0), amount: 70 },
    ];
    let x = m.calc_exposure(PlayerID(0));
    assert_eq!((x.exposure(ContractID(0)), x.neg_exposure(ContractID(0))), (300, 0));
    let y = m.calc_exposure(PlayerID(1));
    assert_eq!((y.exposure(ContractID(0)), y.neg_exposure(ContractID(0))), (-300, 0));
    assert_eq!(y.total_neg_exposure(), 0);
    let mut session = Session::new(&m);
    session.push_iou(Iou {
        issuer_id: PlayerID(1),
        holder_id: PlayerID(1),
        status: IouStatus::True(Condition::If(ContractID(0))),
        amount: 5,
    });
    assert_eq!(session.ious.len(), 1);
    assert_eq!(session.exposures[1].unconditional(), 0);
    assert_eq!(session.exposures[1].exposure(ContractID(0)), -300);
    assert_eq!(session.exposures[0].exposure(ContractID(0)), 300);
    assert!(m.check_credit());
}
