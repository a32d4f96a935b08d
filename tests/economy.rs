use market_economy::money::{Money, UNITS_PER_COIN};
use market_economy::prediction_market::{
    Economy, MarketError, ShareKind, TradeSide, USER_START_BALANCE,
};
use market_economy::share_quantity::ShareQuantity;

const ALICE: u64 = 1;
const BOB: u64 = 2;
const CAROL: u64 = 3;

fn coins(c: u64) -> Money {
    Money(c * UNITS_PER_COIN)
}

fn with_market(creator: u64) -> (Economy, u64) {
    let e = Economy::new();
    e.create_market(creator, "Will it rain?".to_string(), "Resolves by the weather.".to_string(), None)
        .unwrap()
}

#[test]
fn new_market_starts_even() {
    let (e, id) = with_market(ALICE);
    let m = e.market(id).unwrap();
    assert_eq!(id, 0);
    assert_eq!(m.y, ShareQuantity(50 * UNITS_PER_COIN));
    assert_eq!(m.n, ShareQuantity(50 * UNITS_PER_COIN));
    assert_eq!(m.probability(), 50);
    assert_eq!(m.creator, ALICE);
    assert_eq!(m.question, "Will it rain?");
    assert_eq!(m.transaction_history.as_ref().unwrap().len(), 0);
    assert_eq!(e.balance(ALICE), coins(950));
}

#[test]
fn market_ids_increase() {
    let (e, first) = with_market(ALICE);
    let (e, second) = e.create_market(BOB, "Q2".to_string(), "D2".to_string(), None).unwrap();
    assert_eq!(first, 0);
    assert_eq!(second, 1);
    let ids: Vec<u64> = e.list_markets().iter().map(|m| m.id).collect();
    assert_eq!(ids, vec![0, 1]);
}

#[test]
fn default_balance_for_unknown_user() {
    let e = Economy::new();
    assert_eq!(e.balance(CAROL), Money(USER_START_BALANCE));
    assert_eq!(e.balance(CAROL), coins(1000));
}

#[test]
fn buy_yes_scenario() {
    let (e, id) = with_market(ALICE);
    let (e2, shares) = e.buy(BOB, id, coins(100), ShareKind::Yes).unwrap();
    assert_eq!(e2.balance(BOB), coins(900));
    // (150 * 150 - 50 * 50) / 150 coins, rounded down to a millionth.
    assert_eq!(shares, ShareQuantity(133_333_333));
    let m = e2.market(id).unwrap();
    assert_eq!(m.y, ShareQuantity(16_666_667));
    assert_eq!(m.n, ShareQuantity(150 * UNITS_PER_COIN));
    assert!(m.probability() > 50);
    assert_eq!(m.probability(), 89);
    let held = m.num_user_shares.get(&BOB).unwrap();
    assert_eq!(held.kind, ShareKind::Yes);
    assert_eq!(held.quantity, shares);
    let log = m.transaction_history.as_ref().unwrap();
    assert_eq!(log.len(), 1);
    assert_eq!(log[0].user, BOB);
    assert_eq!(log[0].side, TradeSide::Bought);
    assert_eq!(log[0].money, coins(100));
    assert_eq!(log[0].new_probability, 89);
    // The old snapshot is untouched.
    assert_eq!(e.balance(BOB), coins(1000));
    assert_eq!(e.market(id).unwrap().y, ShareQuantity(50 * UNITS_PER_COIN));
}

#[test]
fn buy_no_moves_probability_down() {
    let (e, id) = with_market(ALICE);
    let (e2, shares) = e.buy(BOB, id, coins(100), ShareKind::No).unwrap();
    assert_eq!(shares, ShareQuantity(133_333_333));
    let m = e2.market(id).unwrap();
    assert_eq!(m.y, ShareQuantity(150 * UNITS_PER_COIN));
    assert_eq!(m.n, ShareQuantity(16_666_667));
    assert_eq!(m.probability(), 10);
}

#[test]
fn buy_keeps_product() {
    let (e, id) = with_market(ALICE);
    let (e2, _) = e.buy(BOB, id, Money(7_777_777), ShareKind::Yes).unwrap();
    let before = 50u128 * 50 * (UNITS_PER_COIN as u128) * (UNITS_PER_COIN as u128);
    let m = e2.market(id).unwrap();
    let after = m.y.0 as u128 * m.n.0 as u128;
    assert!(before <= after);
    assert!(after < before + m.n.0 as u128);
}

#[test]
fn buying_more_of_same_kind_adds_up() {
    let (e, id) = with_market(ALICE);
    let (e, a) = e.buy(BOB, id, coins(10), ShareKind::No).unwrap();
    let (e, b) = e.buy(BOB, id, coins(10), ShareKind::No).unwrap();
    let held = *e.market(id).unwrap().num_user_shares.get(&BOB).unwrap();
    assert_eq!(held.quantity.0, a.0 + b.0);
    assert_eq!(e.balance(BOB), coins(980));
}

#[test]
fn buy_opposite_kind_conflicts() {
    let (e, id) = with_market(ALICE);
    let (e, _) = e.buy(BOB, id, coins(10), ShareKind::Yes).unwrap();
    let r = e.buy(BOB, id, coins(10), ShareKind::No);
    assert_eq!(r.err(), Some(MarketError::ConflictingPosition));
    assert_eq!(e.balance(BOB), coins(990));
    let held = *e.market(id).unwrap().num_user_shares.get(&BOB).unwrap();
    assert_eq!(held.kind, ShareKind::Yes);
}

#[test]
fn buy_errors() {
    let (e, id) = with_market(ALICE);
    assert_eq!(e.buy(BOB, id, Money(0), ShareKind::Yes).err(), Some(MarketError::InvalidAmount));
    assert_eq!(e.buy(BOB, 9, coins(1), ShareKind::Yes).err(), Some(MarketError::NotFound));
    assert_eq!(
        e.buy(BOB, id, coins(1001), ShareKind::Yes).err(),
        Some(MarketError::InsufficientFunds)
    );
}

#[test]
fn closed_market_refuses_trades() {
    let e = Economy::new();
    let (e, id) = e.create_market(ALICE, "Q".to_string(), "D".to_string(), Some(100)).unwrap();
    assert!(e.market(id).unwrap().is_open_at(99));
    assert!(!e.market(id).unwrap().is_open_at(100));
    assert_eq!(
        e.buy_at(BOB, id, coins(1), ShareKind::Yes, 100).err(),
        Some(MarketError::MarketClosed)
    );
    let (e2, _) = e.buy_at(BOB, id, coins(1), ShareKind::Yes, 50).unwrap();
    assert_eq!(e2.sell_at(BOB, id, None, 200).err(), Some(MarketError::MarketClosed));
    // By the clock: the close time lies in 1970.
    assert!(!e.market(id).unwrap().is_open());
    assert_eq!(e.buy(BOB, id, coins(1), ShareKind::Yes).err(), Some(MarketError::MarketClosed));
}

#[test]
fn far_close_time_is_open_now() {
    let e = Economy::new();
    let (e, id) = e.create_market(ALICE, "Q".to_string(), "D".to_string(), Some(i64::MAX)).unwrap();
    assert!(e.market(id).unwrap().is_open());
}

#[test]
fn sell_all_after_buy_returns_at_most_cost() {
    let (e, id) = with_market(ALICE);
    let (e, shares) = e.buy(BOB, id, coins(100), ShareKind::Yes).unwrap();
    let (e2, sold, price) = e.sell(BOB, id, None).unwrap();
    assert_eq!(sold.kind, ShareKind::Yes);
    assert_eq!(sold.quantity, shares);
    assert!(price.0 <= coins(100).0);
    assert!(price.0 + 2 >= coins(100).0);
    assert_eq!(e2.balance(BOB).0, coins(900).0 + price.0);
    assert!(e2.market(id).unwrap().num_user_shares.get(&BOB).is_none());
    let log = e2.market(id).unwrap().transaction_history.clone().unwrap();
    assert_eq!(log.len(), 2);
    assert_eq!(log[1].side, TradeSide::Sold);
    assert_eq!(log[1].money, price);
}

#[test]
fn sell_exact_price() {
    // The price is the largest p with (y + s - p) * (n - p) >= y * n.
    let (e, id) = with_market(ALICE);
    let (e, _) = e.buy(BOB, id, coins(20), ShareKind::Yes).unwrap();
    let before = e.market(id).unwrap().clone();
    let (e2, sold, price) = e.sell(BOB, id, Some(ShareQuantity(10 * UNITS_PER_COIN))).unwrap();
    assert_eq!(sold.quantity, ShareQuantity(10 * UNITS_PER_COIN));
    let y1 = before.y.0 as u128 + 10 * UNITS_PER_COIN as u128;
    let n1 = before.n.0 as u128;
    let k = before.y.0 as u128 * before.n.0 as u128;
    let p = price.0 as u128;
    assert!((y1 - p) * (n1 - p) >= k);
    assert!((y1 - p - 1) * (n1 - p - 1) < k);
    let m = e2.market(id).unwrap();
    assert_eq!(m.y.0 as u128, y1 - p);
    assert_eq!(m.n.0 as u128, n1 - p);
}

#[test]
fn sell_partial_keeps_rest() {
    let (e, id) = with_market(ALICE);
    let (e, shares) = e.buy(BOB, id, coins(10), ShareKind::No).unwrap();
    let (e, sold, _) = e.sell(BOB, id, Some(ShareQuantity(shares.0 - 5))).unwrap();
    assert_eq!(sold.quantity.0, shares.0 - 5);
    let held = *e.market(id).unwrap().num_user_shares.get(&BOB).unwrap();
    assert_eq!(held.quantity, ShareQuantity(5));
    assert_eq!(held.kind, ShareKind::No);
}

#[test]
fn oversell_is_invalid() {
    let (e, id) = with_market(ALICE);
    let (e, shares) = e.buy(BOB, id, coins(10), ShareKind::Yes).unwrap();
    let r = e.sell(BOB, id, Some(ShareQuantity(shares.0 + 1)));
    assert_eq!(r.err(), Some(MarketError::InvalidAmount));
    assert_eq!(e.balance(BOB), coins(990));
    assert_eq!(e.market(id).unwrap().num_user_shares.get(&BOB).unwrap().quantity, shares);
}

#[test]
fn sell_errors() {
    let (e, id) = with_market(ALICE);
    assert_eq!(e.sell(BOB, id, None).err(), Some(MarketError::InvalidAmount));
    assert_eq!(e.sell(BOB, 7, None).err(), Some(MarketError::NotFound));
    let (e, _) = e.buy(BOB, id, coins(10), ShareKind::Yes).unwrap();
    assert_eq!(
        e.sell(BOB, id, Some(ShareQuantity(0))).err(),
        Some(MarketError::InvalidAmount)
    );
}

#[test]
fn resolve_pays_winners_and_removes_market() {
    let (e, id) = with_market(ALICE);
    let (e, bob_shares) = e.buy(BOB, id, coins(100), ShareKind::Yes).unwrap();
    let (e, _) = e.buy(CAROL, id, coins(30), ShareKind::No).unwrap();
    let reserve_yes = e.market(id).unwrap().y.0;
    let (e2, market) = e.resolve_market(ALICE, id, ShareKind::Yes).unwrap();
    assert_eq!(e2.balance(BOB).0, coins(900).0 + bob_shares.0);
    assert_eq!(e2.balance(CAROL), coins(970));
    assert_eq!(e2.balance(ALICE).0, coins(950).0 + reserve_yes);
    assert_eq!(market.id, id);
    assert_eq!(market.transaction_history.unwrap().len(), 2);
    assert_eq!(e2.market(id).err(), Some(MarketError::NotFound));
    assert_eq!(e2.list_markets().len(), 0);
}

#[test]
fn resolve_no_pays_no_holders() {
    let (e, id) = with_market(ALICE);
    let (e, _) = e.buy(BOB, id, coins(100), ShareKind::Yes).unwrap();
    let (e, carol_shares) = e.buy(CAROL, id, coins(30), ShareKind::No).unwrap();
    let reserve_no = e.market(id).unwrap().n.0;
    let (e2, _) = e.resolve_market(ALICE, id, ShareKind::No).unwrap();
    assert_eq!(e2.balance(BOB), coins(900));
    assert_eq!(e2.balance(CAROL).0, coins(970).0 + carol_shares.0);
    assert_eq!(e2.balance(ALICE).0, coins(950).0 + reserve_no);
}

#[test]
fn resolve_errors() {
    let (e, id) = with_market(ALICE);
    assert_eq!(e.resolve_market(BOB, id, ShareKind::Yes).err(), Some(MarketError::Unauthorized));
    assert_eq!(e.resolve_market(ALICE, 5, ShareKind::Yes).err(), Some(MarketError::NotFound));
    assert!(e.market(id).is_ok());
}

#[test]
fn tip_moves_money() {
    let e = Economy::new();
    let e2 = e.tip(ALICE, BOB, coins(25)).unwrap();
    assert_eq!(e2.balance(ALICE), coins(975));
    assert_eq!(e2.balance(BOB), coins(1025));
    let e3 = e2.tip(ALICE, ALICE, coins(5)).unwrap();
    assert_eq!(e3.balance(ALICE), coins(975));
}

#[test]
fn tip_errors() {
    let e = Economy::new();
    assert_eq!(e.tip(ALICE, BOB, Money(0)).err(), Some(MarketError::InvalidAmount));
    assert_eq!(e.tip(ALICE, BOB, coins(1001)).err(), Some(MarketError::InsufficientFunds));
    let e2 = e.tip(ALICE, BOB, coins(1000)).unwrap();
    assert_eq!(e2.balance(ALICE), Money(0));
}

#[test]
fn create_market_needs_funds() {
    let e = Economy::new().tip(ALICE, BOB, coins(960)).unwrap();
    let r = e.create_market(ALICE, "Q".to_string(), "D".to_string(), None);
    assert_eq!(r.err(), Some(MarketError::InsufficientFunds));
    let e = Economy::new().tip(ALICE, BOB, coins(950)).unwrap();
    let (e2, _) = e.create_market(ALICE, "Q".to_string(), "D".to_string(), None).unwrap();
    assert_eq!(e2.balance(ALICE), Money(0));
}

#[test]
fn balances_are_ranked() {
    let e = Economy::new();
    let e = e.tip(CAROL, BOB, coins(10)).unwrap();
    let e = e.tip(ALICE, 9, coins(10)).unwrap();
    let ranked = e.balances();
    assert_eq!(
        ranked,
        vec![(BOB, coins(1010)), (9, coins(1010)), (ALICE, coins(990)), (CAROL, coins(990))]
    );
}

#[test]
fn portfolio_lists_positions() {
    let (e, first) = with_market(ALICE);
    let (e, second) = e.create_market(ALICE, "Other?".to_string(), "D".to_string(), None).unwrap();
    let (e, _) = e.create_market(ALICE, "Third?".to_string(), "D".to_string(), None).unwrap();
    let (e, a) = e.buy(BOB, second, coins(5), ShareKind::No).unwrap();
    let (e, b) = e.buy(BOB, first, coins(5), ShareKind::Yes).unwrap();
    let p = e.portfolio(BOB);
    assert_eq!(p.cash, coins(990));
    assert_eq!(p.market_positions.len(), 2);
    assert_eq!(p.market_positions[0].0, "Will it rain?");
    assert_eq!(p.market_positions[0].1.kind, ShareKind::Yes);
    assert_eq!(p.market_positions[0].1.quantity, b);
    assert_eq!(p.market_positions[1].0, "Other?");
    assert_eq!(p.market_positions[1].1.quantity, a);
    assert_eq!(e.portfolio(CAROL).market_positions.len(), 0);
}

#[test]
fn reads_do_not_change_state() {
    let (e, id) = with_market(ALICE);
    let (e, _) = e.buy(BOB, id, coins(5), ShareKind::No).unwrap();
    let p1 = e.portfolio(BOB);
    let p2 = e.portfolio(BOB);
    assert_eq!(p1.cash, p2.cash);
    assert_eq!(p1.market_positions, p2.market_positions);
    assert_eq!(e.balances(), e.balances());
    assert_eq!(e.balance(BOB), e.balance(BOB));
    assert_eq!(e.list_markets().len(), e.list_markets().len());
    assert_eq!(e.market(id).unwrap().probability(), e.market(id).unwrap().probability());
}
