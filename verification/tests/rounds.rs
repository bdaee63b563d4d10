use market::ledger::{Condition, ContractID, IouStatus, PlayerID};
use market::market::Market;
use market::report::clearing_price;
use market::session::{Session, Trade};

type Price = i32;

struct Script {
    market: Market,
}

impl Script {
    fn new_contract(&mut self, name: &str) {
        self.market.new_contract(name).unwrap();
    }

    fn new_player(&mut self, name: &str) {
        self.market.new_player(name).unwrap();
    }

    fn rename_player(&mut self, old_name: &str, new_name: &str) {
        self.market.rename_player(old_name, new_name).unwrap();
    }

    fn contract_outcome(&mut self, name: &str, outcome: bool) {
        self.market.contract_outcome(name, outcome).unwrap();
    }

    fn player_ranges(&mut self, name: &str, ranges: Vec<(&str, Price, Price)>) {
        self.market.player_ranges(name, ranges).unwrap();
    }
}

fn check_round(market: &mut Market) -> Vec<Trade> {
    let before = market.ious.len();
    let report = market.session().unwrap();
    assert_eq!(market.ious.len(), before + 2 * report.trades.len());
    for (k, trade) in report.trades.iter().enumerate() {
        let if_iou = market.ious[before + 2 * k];
        let not_iou = market.ious[before + 2 * k + 1];
        assert!(trade.trade_units >= 1);
        assert_eq!(if_iou.amount + not_iou.amount, trade.trade_units * 100);
        assert_eq!(not_iou.amount, trade.amount);
        assert!(if_iou.amount > 0 && not_iou.amount > 0);
        assert_eq!(if_iou.status, IouStatus::Unknown(Condition::If(trade.contract_id)));
        assert_eq!(not_iou.status, IouStatus::Unknown(Condition::Not(trade.contract_id)));
        assert_eq!(market.contracts[trade.contract_id.0].outcome, None);
        let price = trade.amount / trade.trade_units;
        assert!(1 <= price && price <= 99);
        assert_eq!(trade.amount, price * trade.trade_units);
    }
    for (contract_id, bid, ask) in report.spreads.iter() {
        assert!(0 <= *bid && bid < ask && *ask <= 100);
        assert_eq!(market.contracts[contract_id.0].outcome, None);
    }
    for p in 0..market.players.len() {
        let exposure = market.calc_exposure(PlayerID(p));
        let limit = market.players[p].credit_limit;
        for c in 0..market.contracts.len() {
            assert!(exposure.total_exposure_to_contract(ContractID(c)) <= limit);
            assert!(exposure.total_exposure_to_contract_neg(ContractID(c)) <= limit);
        }
    }
    let sum: i32 = (0..market.players.len())
        .map(|p| market.calc_exposure(PlayerID(p)).total_neg_exposure())
        .sum();
    assert_eq!(sum, 0);
    let session = Session::new(market);
    let offers = session.find_offers(market);
    assert!(session.find_trades(market, &offers).is_empty());
    for c in 0..market.contracts.len() {
        let traded: i32 = report
            .trades
            .iter()
            .filter(|t| t.contract_id == ContractID(c))
            .map(|t| t.amount)
            .sum();
        let units: i32 = report
            .trades
            .iter()
            .filter(|t| t.contract_id == ContractID(c))
            .map(|t| t.trade_units)
            .sum();
        let expected = if traded > 0 { Some((traded / units) as i128) } else { None };
        assert_eq!(clearing_price(&report.trades, ContractID(c)), expected);
        if let Some((low, high)) = market.cleared_spread(ContractID(c)) {
            assert!(0 <= low && low <= 100);
            assert!(0 <= high && high <= 100);
        }
    }
    report.trades
}

fn rounds() -> Vec<Vec<Trade>> {
    let mut script = Script { market: Market::new() };
    let setups: [fn(&mut Script); 10] = [
        setup_session1,
        setup_session2,
        setup_session3,
        setup_session4,
        setup_session5,
        setup_session6,
        setup_session7,
        setup_session8,
        setup_session9,
        setup_session10,
    ];
    let mut all = Vec::new();
    for setup in setups.iter() {
        setup(&mut script);
        script.market.increment_credit(1000).unwrap();
        all.push(check_round(&mut script.market));
    }
    all
}

#[test]
fn ten_rounds_keep_the_books_in_order() {
    let all = rounds();
    assert_eq!(all.len(), 10);
    assert!(all.iter().all(|trades| !trades.is_empty()));
}

#[test]
fn ten_rounds_twice_trade_alike() {
    assert_eq!(rounds(), rounds());
}

fn setup_session1(market: &mut Script) {
    market.new_contract("Sanders");
    market.new_contract("Warren");
    market.new_contract("Biden");
    market.new_contract("Buttigieg");
    market.new_contract("Harris");
    market.new_contract("Steyer");
    market.new_contract("Yang");
    market.new_contract("Gillibrand");
    market.new_contract("Gabbard");
    market.new_contract("Williamson");
    market.new_contract("Booker");
    market.new_contract("Klobuchar");
    market.new_contract("Castro");

    market.new_player("antoine-roquentin");
    market.new_player("blastfarmer");
    market.new_player("cromulentenough");
    market.new_player("flakmaniak");
    market.new_player("intercal");
    market.new_player("kwarrtz");
    market.new_player("learn-tilde-ath");
    market.new_player("ouroborostriumphant");
    market.new_player("placid-platypus");
    market.new_player("squareallworthy");
    market.new_player("tanadrin");
    market.new_player("the-moti");
    market.new_player("triviallytrue");
    market.new_player("von-hresvelg");

    market.player_ranges("learn-tilde-ath", vec![("Sanders", 2, 98)]);

    market.player_ranges(
        "antoine-roquentin",
        vec![
            ("Sanders", 79, 80),
            ("Warren", 14, 15),
            ("Biden", 0, 1),
            ("Buttigieg", 0, 1),
            ("Harris", 0, 1),
            ("Steyer", 0, 1),
            ("Yang", 0, 1),
        ],
    );

    market.player_ranges(
        "triviallytrue",
        vec![
            ("Sanders", 20, 40),
            ("Warren", 25, 45),
            ("Buttigieg", 15, 30),
        ],
    );

    market.player_ranges(
        "ouroborostriumphant",
        vec![
            ("Biden", 20, 45),
            ("Warren", 20, 45),
            ("Sanders", 10, 20),
            ("Yang", 5, 10),
            ("Buttigieg", 5, 15),
            ("Harris", 5, 10),
            ("Gillibrand", 0, 5),
            ("Gabbard", 0, 5),
            ("Williamson", 0, 5),
        ],
    );

    market.player_ranges(
        "tanadrin",
        vec![("Warren", 20, 40), ("Biden", 20, 40), ("Sanders", 10, 20)],
    );

    market.player_ranges(
        "kwarrtz",
        vec![
            ("Warren", 40, 60),
            ("Biden", 40, 60),
            ("Sanders", 20, 25),
            ("Buttigieg", 0, 10),
            ("Harris", 0, 5),
            ("Yang", 0, 1),
            ("Steyer", 0, 1),
        ],
    );

    market.player_ranges(
        "flakmaniak",
        vec![
            ("Warren", 30, 60),
            ("Biden", 25, 45),
            ("Sanders", 10, 30),
            ("Buttigieg", 0, 8),
            ("Harris", 0, 6),
            ("Booker", 0, 4),
        ],
    );

    market.player_ranges(
        "squareallworthy",
        vec![
            ("Biden", 39, 41),
            ("Warren", 32, 34),
            ("Sanders", 9, 11),
            ("Buttigieg", 4, 6),
            ("Harris", 4, 6),
            ("Yang", 0, 1),
            ("Gabbard", 0, 1),
            ("Booker", 0, 1),
            ("Klobuchar", 0, 1),
        ],
    );

    market.player_ranges(
        "intercal",
        vec![
            ("Warren", 15, 25),
            ("Biden", 50, 75),
            ("Sanders", 0, 15),
            ("Yang", 0, 5),
        ],
    );

    market.player_ranges(
        "cromulentenough",
        vec![
            ("Warren", 25, 40),
            ("Sanders", 20, 35),
            ("Biden", 10, 25),
            ("Buttigieg", 5, 15),
        ],
    );

    market.player_ranges(
        "von-hresvelg",
        vec![
            ("Warren", 40, 60),
            ("Biden", 35, 50),
            ("Sanders", 20, 35),
            ("Buttigieg", 5, 25),
            ("Yang", 0, 15),
        ],
    );

    market.player_ranges(
        "placid-platypus",
        vec![
            ("Biden", 15, 35),
            ("Warren", 20, 40),
            ("Sanders", 10, 20),
            ("Buttigieg", 5, 15),
            ("Yang", 2, 8),
            ("Harris", 2, 6),
            ("Booker", 0, 5),
            ("Castro", 0, 4),
        ],
    );

    market.player_ranges(
        "blastfarmer",
        vec![
            ("Biden", 0, 33),
            ("Warren", 0, 46),
            ("Sanders", 0, 11),
            ("Buttigieg", 0, 9),
        ],
    );

    market.player_ranges(
        "the-moti",
        vec![
            ("Warren", 23, 46),
            ("Biden", 15, 30),
            ("Buttigieg", 13, 26),
            ("Sanders", 9, 18),
            ("Yang", 5, 10),
            ("Klobuchar", 2, 4),
        ],
    );
}

fn setup_session2(market: &mut Script) {
    market.new_contract("Patrick");

    market.new_player("birth-muffins-death");
    market.new_player("bibliolithid");
    market.new_player("firebendinglemur");
    market.new_player("tremorbond");
    market.new_player("la-pou-belle");

    market.rename_player("blastfarmer", "irradiate-space");

    market.player_ranges(
        "cromulentenough",
        vec![
            ("Sanders", 30, 50),
            ("Warren", 30, 50),
            ("Biden", 15, 35),
            ("Buttigieg", 20, 40),
        ],
    );

    market.player_ranges(
        "flakmaniak",
        vec![
            ("Warren", 30, 60),
            ("Biden", 25, 45),
            ("Sanders", 10, 30),
            ("Buttigieg", 0, 8),
            ("Harris", 0, 6),
            ("Booker", 0, 4),
            ("Yang", 0, 1),
        ],
    );

    market.player_ranges(
        "birth-muffins-death",
        vec![
            ("Biden", 35, 75),
            ("Warren", 10, 30),
            ("Sanders", 5, 35),
            ("Buttigieg", 1, 10),
            ("Harris", 1, 3),
        ],
    );

    market.player_ranges(
        "ouroborostriumphant",
        vec![
            ("Biden", 20, 45),
            ("Buttigieg", 5, 15),
            ("Gabbard", 0, 5),
            ("Gillibrand", 0, 5),
            ("Harris", 2, 10),
            ("Sanders", 10, 20),
            ("Warren", 20, 45),
            ("Williamson", 0, 5),
            ("Yang", 1, 7),
        ],
    );

    market.player_ranges(
        "bibliolithid",
        vec![
            ("Warren", 40, 45),
            ("Biden", 28, 32),
            ("Sanders", 17, 21),
            ("Buttigieg", 3, 5),
            ("Yang", 1, 2),
            ("Harris", 1, 3),
        ],
    );

    market.player_ranges(
        "irradiate-space",
        vec![
            ("Biden", 20, 33),
            ("Warren", 20, 47),
            ("Sanders", 0, 11),
            ("Buttigieg", 0, 9),
            ("Yang", 0, 1),
            ("Harris", 0, 1),
        ],
    );

    market.player_ranges(
        "squareallworthy",
        vec![
            ("Biden", 40, 41),
            ("Booker", 0, 3),
            ("Buttigieg", 7, 8),
            ("Gabbard", 0, 3),
            ("Harris", 3, 4),
            ("Klobuchar", 0, 3),
            ("Sanders", 9, 10),
            ("Warren", 34, 35),
            ("Yang", 0, 3),
            ("Patrick", 0, 3),
        ],
    );

    market.player_ranges(
        "tanadrin",
        vec![
            ("Biden", 20, 40),
            ("Sanders", 10, 20),
            ("Warren", 20, 40),
            ("Yang", 0, 1),
            ("Williamson", 0, 1),
            ("Steyer", 0, 1),
            ("Klobuchar", 0, 1),
            ("Gillibrand", 0, 1),
            ("Gabbard", 0, 1),
            ("Castro", 0, 1),
            ("Buttigieg", 0, 1),
            ("Booker", 0, 1),
            ("Harris", 0, 10),
        ],
    );

    market.player_ranges(
        "the-moti",
        vec![
            ("Booker", 0, 1),
            ("Castro", 0, 2),
            ("Gabbard", 2, 6),
            ("Gillibrand", 0, 2),
            ("Harris", 2, 6),
            ("Klobuchar", 1, 3),
            ("Steyer", 0, 1),
            ("Williamson", 0, 2),
            ("Yang", 4, 8),
            ("Biden", 20, 28),
            ("Buttigieg", 14, 22),
            ("Sanders", 9, 17),
            ("Warren", 24, 32),
        ],
    );

    market.player_ranges(
        "firebendinglemur",
        vec![
            ("Biden", 65, 70),
            ("Warren", 15, 17),
            ("Sanders", 11, 12),
            ("Buttigieg", 2, 3),
            ("Harris", 1, 2),
            ("Gabbard", 0, 2),
        ],
    );

    market.player_ranges(
        "tremorbond",
        vec![
            ("Biden", 33, 39),
            ("Warren", 29, 35),
            ("Sanders", 13, 17),
            ("Buttigieg", 8, 12),
            ("Harris", 1, 3),
            ("Yang", 1, 3),
        ],
    );

    market.player_ranges(
        "la-pou-belle",
        vec![
            ("Warren", 54, 56),
            ("Biden", 24, 26),
            ("Buttigieg", 11, 13),
            ("Sanders", 5, 7),
            ("Steyer", 1, 3),
        ],
    );
}

fn setup_session3(market: &mut Script) {
    market.new_contract("Bloomberg");

    market.new_player("maybesimon");

    market.player_ranges(
        "squareallworthy",
        vec![
            ("Biden", 42, 43),
            ("Buttigieg", 7, 9),
            ("Harris", 2, 3),
            ("Sanders", 9, 11),
            ("Warren", 34, 35),
            ("Yang", 0, 1),
            ("Bloomberg", 0, 1),
            ("Booker", 0, 1),
            ("Gabbard", 0, 1),
            ("Klobuchar", 0, 1),
            ("Patrick", 0, 1),
        ],
    );

    market.player_ranges(
        "placid-platypus",
        vec![
            ("Biden", 20, 35),
            ("Warren", 18, 28),
            ("Sanders", 10, 15),
            ("Buttigieg", 10, 18),
            ("Yang", 1, 6),
            ("Harris", 2, 5),
            ("Klobuchar", 3, 6),
            ("Booker", 0, 1),
            ("Castro", 0, 1),
            ("Patrick", 0, 2),
            ("Bloomberg", 0, 1),
        ],
    );

    market.player_ranges(
        "kwarrtz",
        vec![
            ("Warren", 40, 60),
            ("Biden", 40, 60),
            ("Sanders", 20, 25),
            ("Buttigieg", 0, 10),
            ("Harris", 0, 5),
            ("Yang", 0, 1),
            ("Steyer", 0, 1),
            ("Patrick", 0, 5),
            ("Bloomberg", 0, 10),
            ("Klobuchar", 0, 1),
        ],
    );

    market.player_ranges(
        "tanadrin",
        vec![
            ("Biden", 20, 40),
            ("Sanders", 10, 20),
            ("Warren", 20, 40),
            ("Yang", 0, 1),
            ("Williamson", 0, 1),
            ("Steyer", 0, 1),
            ("Klobuchar", 0, 1),
            ("Gillibrand", 0, 1),
            ("Gabbard", 0, 1),
            ("Castro", 0, 1),
            ("Buttigieg", 5, 15),
            ("Booker", 0, 1),
            ("Harris", 0, 10),
        ],
    );

    market.player_ranges(
        "the-moti",
        vec![
            ("Biden", 21, 23),
            ("Bloomberg", 2, 8),
            ("Booker", 0, 2),
            ("Buttigieg", 16, 23),
            ("Harris", 2, 4),
            ("Klobuchar", 2, 4),
            ("Sanders", 12, 16),
            ("Warren", 22, 25),
            ("Yang", 3, 8),
        ],
    );

    market.player_ranges("maybesimon", vec![("Biden", 75, 95), ("Warren", 25, 30)]);
}

fn setup_session4(market: &mut Script) {
    market.new_contract("Bennet");
    market.new_contract("Bullock");
    market.new_contract("Delaney");
    market.new_contract("Sestak");

    market.new_player("utilitymonstermash");

    market.player_ranges(
        "ouroborostriumphant",
        vec![
            ("Biden", 30, 35),
            ("Warren", 20, 25),
            ("Buttigieg", 10, 20),
            ("Sanders", 10, 15),
            ("Buttigieg", 10, 20),
            ("Harris", 2, 5),
            ("Yang", 1, 5),
            ("Bloomberg", 0, 1),
            ("Patrick", 0, 1),
            ("Gabbard", 0, 1),
            ("Gillibrand", 0, 1),
            ("Klobuchar", 0, 1),
        ],
    );

    market.player_ranges(
        "von-hresvelg",
        vec![
            ("Biden", 40, 70),
            ("Buttigieg", 5, 15),
            ("Sanders", 20, 35),
            ("Warren", 35, 50),
            ("Yang", 0, 5),
        ],
    );

    market.player_ranges(
        "kwarrtz",
        vec![
            ("Warren", 40, 60),
            ("Biden", 40, 60),
            ("Sanders", 20, 25),
            ("Buttigieg", 0, 20),
            ("Harris", 0, 5),
            ("Yang", 0, 1),
            ("Steyer", 0, 1),
            ("Patrick", 0, 5),
            ("Bloomberg", 0, 10),
            ("Klobuchar", 0, 1),
        ],
    );

    market.player_ranges(
        "utilitymonstermash",
        vec![
            ("Biden", 22, 42),
            ("Bloomberg", 1, 5),
            ("Booker", 0, 1),
            ("Buttigieg", 1, 9),
            ("Castro", 0, 1),
            ("Gabbard", 0, 1),
            ("Gillibrand", 0, 1),
            ("Harris", 4, 8),
            ("Klobuchar", 1, 2),
            ("Patrick", 0, 1),
            ("Sanders", 6, 13),
            ("Steyer", 0, 1),
            ("Warren", 22, 33),
            ("Williamson", 0, 1),
            ("Yang", 0, 1),
        ],
    );

    market.player_ranges(
        "irradiate-space",
        vec![
            ("Biden", 5, 11),
            ("Bloomberg", 5, 11),
            ("Buttigieg", 5, 11),
            ("Harris", 0, 1),
            ("Sanders", 20, 31),
            ("Warren", 20, 47),
            ("Yang", 0, 1),
        ],
    );

    market.player_ranges(
        "squareallworthy",
        vec![
            ("Biden", 44, 45),
            ("Buttigieg", 5, 10),
            ("Harris", 1, 2),
            ("Sanders", 8, 12),
            ("Warren", 35, 36),
            ("Yang", 0, 1),
            ("Bloomberg", 0, 1),
            ("Booker", 0, 1),
            ("Gabbard", 0, 1),
            ("Klobuchar", 0, 1),
            ("Patrick", 0, 1),
        ],
    );

    market.player_ranges(
        "cromulentenough",
        vec![
            ("Sanders", 25, 35),
            ("Warren", 30, 40),
            ("Biden", 15, 25),
            ("Buttigieg", 15, 30),
            ("Harris", 5, 10),
            ("Gabbard", 1, 4),
            ("Bloomberg", 1, 4),
            ("Yang", 1, 4),
            ("Klobuchar", 0, 2),
            ("Bennet", 0, 2),
            ("Booker", 0, 2),
            ("Williamson", 0, 2),
            ("Patrick", 0, 2),
            ("Sestak", 0, 2),
            ("Steyer", 0, 2),
            ("Delaney", 0, 2),
            ("Castro", 0, 2),
            ("Bullock", 0, 2),
        ],
    );

    market.player_ranges(
        "birth-muffins-death",
        vec![
            ("Biden", 35, 75),
            ("Warren", 10, 30),
            ("Sanders", 5, 35),
            ("Buttigieg", 1, 10),
            ("Harris", 0, 1),
            ("Yang", 0, 1),
        ],
    );
}

fn setup_session5(market: &mut Script) {
    market.contract_outcome("Harris", false);
    market.contract_outcome("Bullock", false);
    market.contract_outcome("Sestak", false);
    market.contract_outcome("Gillibrand", false);

    market.new_player("worriedaboutmyfern");
    market.new_player("ijime-deactivated20150440");

    market.player_ranges(
        "placid-platypus",
        vec![
            ("Biden", 30, 45),
            ("Warren", 25, 35),
            ("Sanders", 12, 16),
            ("Buttigieg", 12, 20),
            ("Yang", 1, 6),
            ("Klobuchar", 1, 4),
            ("Booker", 0, 1),
            ("Castro", 0, 1),
            ("Patrick", 0, 2),
            ("Bloomberg", 0, 1),
            ("Gabbard", 0, 1),
            ("Williamson", 0, 1),
        ],
    );

    market.player_ranges(
        "squareallworthy",
        vec![
            ("Biden", 49, 50),
            ("Bloomberg", 0, 1),
            ("Booker", 0, 1),
            ("Buttigieg", 5, 11),
            ("Gabbard", 0, 1),
            ("Klobuchar", 0, 1),
            ("Patrick", 0, 1),
            ("Sanders", 8, 12),
            ("Warren", 35, 36),
            ("Yang", 0, 1),
            ("Williamson", 0, 1),
        ],
    );

    market.player_ranges(
        "the-moti",
        vec![
            ("Biden", 22, 27),
            ("Buttigieg", 18, 21),
            ("Warren", 16, 18),
            ("Sanders", 12, 17),
            ("Bloomberg", 4, 13),
            ("Yang", 3, 8),
            ("Klobuchar", 1, 4),
            ("Gabbard", 0, 2),
            ("Booker", 0, 1),
        ],
    );

    market.player_ranges(
        "irradiate-space",
        vec![
            ("Biden", 5, 11),
            ("Bloomberg", 5, 11),
            ("Buttigieg", 5, 11),
            ("Sanders", 20, 31),
            ("Steyer", 2, 5),
            ("Warren", 25, 57),
            ("Yang", 0, 1),
        ],
    );

    market.player_ranges(
        "worriedaboutmyfern",
        vec![
            ("Biden", 55, 80),
            ("Warren", 10, 20),
            ("Buttigieg", 10, 20),
            ("Sanders", 0, 5),
        ],
    );

    market.player_ranges(
        "ijime-deactivated20150440",
        vec![
            ("Biden", 10, 15),
            ("Sanders", 10, 20),
            ("Warren", 10, 40),
            ("Klobuchar", 0, 1),
            ("Buttigieg", 10, 15),
            ("Gabbard", 3, 10),
            ("Booker", 2, 5),
            ("Williamson", 2, 5),
            ("Yang", 3, 25),
        ],
    );

    market.player_ranges(
        "utilitymonstermash",
        vec![
            ("Bennet", 0, 1),
            ("Biden", 21, 45),
            ("Bloomberg", 4, 12),
            ("Booker", 0, 1),
            ("Buttigieg", 18, 33),
            ("Castro", 0, 1),
            ("Delaney", 0, 1),
            ("Gabbard", 0, 1),
            ("Klobuchar", 0, 1),
            ("Patrick", 0, 1),
            ("Sanders", 4, 10),
            ("Steyer", 0, 1),
            ("Warren", 21, 45),
            ("Williamson", 0, 1),
            ("Yang", 0, 1),
        ],
    );

    market.player_ranges(
        "kwarrtz",
        vec![
            ("Warren", 40, 60),
            ("Biden", 40, 60),
            ("Sanders", 10, 20),
            ("Buttigieg", 5, 25),
            ("Yang", 0, 1),
            ("Steyer", 0, 1),
            ("Patrick", 0, 5),
            ("Bloomberg", 0, 10),
            ("Klobuchar", 0, 1),
        ],
    );
}

fn setup_session6(market: &mut Script) {
    market.player_ranges(
        "ouroborostriumphant",
        vec![
            ("Biden", 35, 40),
            ("Warren", 20, 25),
            ("Sanders", 15, 20),
            ("Buttigieg", 15, 20),
            ("Yang", 1, 4),
            ("Patrick", 0, 2),
            ("Bloomberg", 0, 2),
            ("Steyer", 0, 1),
            ("Klobuchar", 0, 1),
            ("Bennet", 0, 1),
            ("Booker", 0, 1),
            ("Gabbard", 0, 1),
            ("Williamson", 0, 1),
        ],
    );

    market.player_ranges(
        "utilitymonstermash",
        vec![
            ("Bennet", 0, 1),
            ("Biden", 27, 60),
            ("Bloomberg", 4, 12),
            ("Booker", 0, 1),
            ("Buttigieg", 10, 27),
            ("Castro", 0, 1),
            ("Delaney", 0, 1),
            ("Gabbard", 0, 1),
            ("Klobuchar", 0, 2),
            ("Patrick", 0, 1),
            ("Sanders", 4, 12),
            ("Steyer", 0, 1),
            ("Warren", 26, 60),
            ("Williamson", 0, 1),
            ("Yang", 0, 2),
        ],
    );

    market.player_ranges(
        "ijime-deactivated20150440",
        vec![
            ("Biden", 10, 15),
            ("Sanders", 10, 20),
            ("Warren", 10, 34),
            ("Klobuchar", 0, 1),
            ("Buttigieg", 10, 30),
            ("Gabbard", 3, 6),
            ("Booker", 2, 5),
            ("Williamson", 2, 5),
            ("Yang", 3, 15),
        ],
    );
}

fn setup_session7(market: &mut Script) {
    market.new_player("thomas-midgley-did-nothing-wrong");
    market.new_player("goatsgomoo");

    market.player_ranges(
        "tremorbond",
        vec![
            ("Biden", 33, 39),
            ("Warren", 24, 28),
            ("Sanders", 18, 22),
            ("Buttigieg", 10, 12),
            ("Yang", 1, 3),
            ("Bloomberg", 0, 1),
            ("Klobuchar", 1, 2),
        ],
    );

    market.player_ranges(
        "thomas-midgley-did-nothing-wrong",
        vec![
            ("Biden", 25, 40),
            ("Sanders", 15, 35),
            ("Warren", 35, 55),
            ("Yang", 1, 5),
        ],
    );

    market.player_ranges(
        "von-hresvelg",
        vec![
            ("Warren", 30, 80),
            ("Sanders", 25, 60),
            ("Yang", 10, 40),
            ("Buttigieg", 2, 10),
            ("Biden", 15, 25),
        ],
    );

    market.player_ranges(
        "utilitymonstermash",
        vec![
            ("Bennet", 0, 1),
            ("Biden", 27, 60),
            ("Bloomberg", 6, 22),
            ("Booker", 0, 1),
            ("Buttigieg", 9, 29),
            ("Castro", 0, 1),
            ("Delaney", 0, 1),
            ("Gabbard", 0, 1),
            ("Klobuchar", 0, 2),
            ("Patrick", 0, 1),
            ("Sanders", 4, 12),
            ("Steyer", 0, 1),
            ("Warren", 27, 60),
            ("Williamson", 0, 1),
            ("Yang", 0, 2),
        ],
    );

    market.player_ranges(
        "ijime-deactivated20150440",
        vec![("Yang", 3, 100), ("Gabbard", 2, 100), ("Booker", 2, 100)],
    );

    market.player_ranges(
        "goatsgomoo",
        vec![
            ("Biden", 40, 75),
            ("Sanders", 15, 75),
            ("Warren", 15, 40),
            ("Buttigieg", 0, 1),
            ("Yang", 0, 1),
            ("Gabbard", 0, 1),
            ("Castro", 0, 1),
            ("Bloomberg", 0, 1),
            ("Booker", 0, 1),
            ("Klobuchar", 0, 1),
        ],
    );
}

fn setup_session8(market: &mut Script) {
    market.player_ranges(
        "firebendinglemur",
        vec![
            ("Biden", 70, 80),
            ("Warren", 8, 10),
            ("Sanders", 5, 6),
            ("Gabbard", 1, 2),
            ("Buttigieg", 0, 1),
            ("Yang", 0, 1),
        ],
    );

    market.player_ranges(
        "thomas-midgley-did-nothing-wrong",
        vec![
            ("Biden", 25, 30),
            ("Sanders", 25, 45),
            ("Warren", 30, 45),
            ("Yang", 1, 5),
        ],
    );

    market.player_ranges(
        "utilitymonstermash",
        vec![
            ("Bennet", 0, 1),
            ("Biden", 32, 65),
            ("Bloomberg", 3, 22),
            ("Booker", 0, 1),
            ("Buttigieg", 8, 29),
            ("Castro", 0, 1),
            ("Delaney", 0, 1),
            ("Gabbard", 0, 1),
            ("Klobuchar", 0, 2),
            ("Patrick", 0, 1),
            ("Sanders", 4, 12),
            ("Steyer", 0, 1),
            ("Warren", 27, 60),
            ("Williamson", 0, 1),
            ("Yang", 0, 3),
        ],
    );
}

fn setup_session9(market: &mut Script) {
    market.new_player("holomanga");
    market.rename_player("von-hresvelg", "princesse266");
    market.contract_outcome("Castro", false);

    market.player_ranges(
        "holomanga",
        vec![
            ("Biden", 24, 48),
            ("Warren", 12, 24),
            ("Sanders", 12, 24),
            ("Buttigieg", 6, 12),
            ("Bloomberg", 6, 12),
            ("Yang", 3, 6),
            ("Klobuchar", 1, 3),
            ("Bennet", 0, 1),
            ("Booker", 0, 1),
            ("Delaney", 0, 1),
            ("Gabbard", 0, 1),
            ("Patrick", 0, 1),
            ("Steyer", 0, 1),
            ("Williamson", 0, 1),
        ],
    );

    market.player_ranges(
        "the-moti",
        vec![
            ("Biden", 30, 37),
            ("Sanders", 19, 25),
            ("Warren", 12, 17),
            ("Buttigieg", 10, 14),
            ("Bloomberg", 3, 13),
            ("Klobuchar", 3, 6),
            ("Yang", 2, 10),
            ("Gabbard", 0, 1),
            ("Booker", 0, 1),
        ],
    );
}

fn setup_session10(market: &mut Script) {
    market.new_player("qualiteagirl");
    market.contract_outcome("Williamson", false);

    market.player_ranges(
        "ouroborostriumphant",
        vec![
            ("Biden", 48, 52),
            ("Sanders", 18, 22),
            ("Warren", 13, 17),
            ("Buttigieg", 13, 17),
            ("Yang", 0, 5),
            ("Bloomberg", 0, 3),
            ("Booker", 0, 2),
            ("Gabbard", 0, 1),
            ("Patrick", 0, 1),
            ("Steyer", 0, 1),
        ],
    );

    market.player_ranges(
        "placid-platypus",
        vec![
            ("Biden", 37, 54),
            ("Warren", 20, 30),
            ("Sanders", 12, 16),
            ("Buttigieg", 10, 16),
            ("Yang", 1, 6),
            ("Klobuchar", 1, 4),
            ("Booker", 0, 1),
            ("Patrick", 0, 2),
            ("Bloomberg", 0, 1),
        ],
    );

    market.player_ranges(
        "squareallworthy",
        vec![
            ("Biden", 49, 50),
            ("Bloomberg", 0, 1),
            ("Booker", 0, 1),
            ("Buttigieg", 5, 11),
            ("Gabbard", 0, 1),
            ("Klobuchar", 0, 1),
            ("Patrick", 0, 1),
            ("Sanders", 12, 15),
            ("Warren", 25, 30),
            ("Yang", 0, 1),
        ],
    );

    market.player_ranges(
        "irradiate-space",
        vec![
            ("Biden", 20, 31),
            ("Bloomberg", 0, 11),
            ("Buttigieg", 10, 20),
            ("Sanders", 30, 41),
            ("Warren", 30, 57),
            ("Yang", 0, 2),
        ],
    );

    market.player_ranges(
        "ijime-deactivated20150440",
        vec![("Yang", 3, 100), ("Gabbard", 2, 100)],
    );

    market.player_ranges(
        "goatsgomoo",
        vec![
            ("Biden", 70, 95),
            ("Sanders", 15, 70),
            ("Warren", 15, 70),
            ("Buttigieg", 0, 1),
            ("Yang", 0, 1),
            ("Gabbard", 0, 1),
            ("Bloomberg", 0, 1),
            ("Booker", 0, 1),
            ("Klobuchar", 0, 1),
        ],
    );

    market.player_ranges(
        "holomanga",
        vec![
            ("Biden", 32, 64),
            ("Sanders", 16, 32),
            ("Warren", 8, 16),
            ("Bloomberg", 8, 16),
            ("Buttigieg", 4, 8),
            ("Yang", 2, 4),
            ("Klobuchar", 1, 2),
            ("Bennet", 0, 1),
            ("Booker", 0, 1),
            ("Delaney", 0, 1),
            ("Gabbard", 0, 1),
            ("Patrick", 0, 1),
            ("Steyer", 0, 1),
        ],
    );

    market.player_ranges(
        "utilitymonstermash",
        vec![
            ("Bennet", 0, 1),
            ("Biden", 39, 69),
            ("Bloomberg", 1, 22),
            ("Booker", 0, 2),
            ("Buttigieg", 9, 55),
            ("Delaney", 0, 1),
            ("Gabbard", 0, 2),
            ("Klobuchar", 0, 2),
            ("Patrick", 0, 1),
            ("Sanders", 5, 35),
            ("Steyer", 0, 1),
            ("Warren", 30, 60),
            ("Yang", 0, 3),
        ],
    );

    market.player_ranges(
        "qualiteagirl",
        vec![
            ("Biden", 50, 75),
            ("Sanders", 25, 37),
            ("Warren", 12, 25),
            ("Buttigieg", 5, 12),
            ("Bennet", 0, 1),
            ("Bloomberg", 0, 1),
            ("Booker", 0, 1),
            ("Delaney", 0, 1),
            ("Gabbard", 0, 1),
            ("Klobuchar", 0, 1),
            ("Patrick", 0, 1),
            ("Steyer", 0, 1),
            ("Yang", 0, 1),
        ],
    );

    market.player_ranges(
        "cromulentenough",
        vec![
            ("Sanders", 20, 30),
            ("Warren", 10, 20),
            ("Biden", 35, 45),
            ("Buttigieg", 10, 20),
            ("Gabbard", 1, 4),
            ("Bloomberg", 1, 4),
            ("Yang", 1, 4),
            ("Klobuchar", 0, 2),
            ("Bennet", 0, 2),
            ("Booker", 0, 2),
            ("Patrick", 0, 2),
            ("Steyer", 0, 2),
            ("Delaney", 0, 2),
        ],
    );

    market.player_ranges(
        "the-moti",
        vec![
            ("Biden", 33, 42),
            ("Sanders", 24, 30),
            ("Warren", 10, 13),
            ("Bloomberg", 5, 13),
            ("Buttigieg", 8, 10),
            ("Yang", 2, 5),
            ("Klobuchar", 1, 5),
            ("Gabbard", 0, 1),
            ("Booker", 0, 1),
        ],
    );
}
