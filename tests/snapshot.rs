use market_economy::money::{Money, UNITS_PER_COIN};
use market_economy::prediction_market::{Economy, ShareKind};
use market_economy::share_quantity::ShareQuantity;

fn busy_economy() -> (Economy, u64, u64) {
    let e = Economy::new();
    let (e, a) = e.create_market(1, "A?".to_string(), "first".to_string(), Some(4_000_000_000)).unwrap();
    let (e, b) = e.create_market(2, "B?".to_string(), "second".to_string(), None).unwrap();
    let (e, _) = e.buy(3, a, Money(10 * UNITS_PER_COIN), ShareKind::Yes).unwrap();
    let (e, _) = e.buy(4, a, Money(5 * UNITS_PER_COIN), ShareKind::No).unwrap();
    let (e, _) = e.buy(3, b, Money(7 * UNITS_PER_COIN), ShareKind::No).unwrap();
    let e = e.tip(4, 5, Money(1)).unwrap();
    (e, a, b)
}

#[test]
fn snapshot_round_trip_keeps_state() {
    let (e, a, b) = busy_economy();
    let snap = e.to_snapshot();
    assert_eq!(snap.next_market_id, 2);
    let users: Vec<u64> = snap.balances.iter().map(|p| p.0).collect();
    assert_eq!(users, vec![1, 2, 3, 4, 5]);
    let back = Economy::from_snapshot(&snap).unwrap();
    assert_eq!(back.balances(), e.balances());
    for id in [a, b] {
        let m1 = e.market(id).unwrap();
        let m2 = back.market(id).unwrap();
        assert_eq!(m1.y, m2.y);
        assert_eq!(m1.n, m2.n);
        assert_eq!(m1.question, m2.question);
        assert_eq!(m1.description, m2.description);
        assert_eq!(m1.close_timestamp, m2.close_timestamp);
        assert_eq!(m1.transaction_history, m2.transaction_history);
        assert_eq!(m1.num_user_shares, m2.num_user_shares);
    }
    // The next market takes the next id after a round trip as well.
    let (_, id) = back.create_market(9, "C?".to_string(), "".to_string(), None).unwrap();
    assert_eq!(id, 2);
    let again = back.to_snapshot();
    assert_eq!(again.balances, snap.balances);
    assert_eq!(again.markets.len(), 2);
    assert_eq!(again.markets[0].positions, snap.markets[0].positions);
}

#[test]
fn snapshot_with_empty_reserve_is_refused() {
    let (e, _, _) = busy_economy();
    let mut snap = e.to_snapshot();
    snap.markets[1].y = ShareQuantity(0);
    assert!(Economy::from_snapshot(&snap).is_none());
}

#[test]
fn snapshot_with_unissued_id_is_refused() {
    let (e, _, _) = busy_economy();
    let mut snap = e.to_snapshot();
    snap.markets[0].id = 2;
    assert!(Economy::from_snapshot(&snap).is_none());
}

#[test]
fn snapshot_with_empty_position_is_refused() {
    let (e, _, _) = busy_economy();
    let mut snap = e.to_snapshot();
    snap.markets[0].positions[0].1.quantity = ShareQuantity(0);
    assert!(Economy::from_snapshot(&snap).is_none());
}
