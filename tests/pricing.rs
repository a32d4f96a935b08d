use market_economy::prediction_market::ShareKind;
use market_economy::pricing::{buy_shares, probability, sell_price};

#[test]
fn buy_formula_small_pool() {
    // (4 * 4 - 2 * 2) / 4 = 3 Yes shares; the pool keeps (1, 4).
    assert_eq!(buy_shares(2, 2, 2, ShareKind::Yes), 3);
    // (3 * 5 - 1 * 3) / 3 = 4 No shares out of a (1, 3) pool given 2.
    assert_eq!(buy_shares(1, 3, 2, ShareKind::No), 4);
    // Rounded down: (3 * 4 - 2) / 4 = 2.5.
    assert_eq!(buy_shares(2, 1, 1, ShareKind::Yes), 2);
}

#[test]
fn sell_formula_small_pool() {
    // Pool (1, 4) after a purchase; returning 3 Yes shares gives (4, 4) and
    // the largest p with (4 - p) * (4 - p) >= 4 is 2.
    assert_eq!(sell_price(1, 4, 3, ShareKind::Yes), 2);
    // (10 + 0 - p)(10 - p) >= 100 only for p = 0.
    assert_eq!(sell_price(10, 10, 0, ShareKind::No), 0);
    // (5)(5 + 4 - p)... pool (5, 5), 4 No shares back: (5 - p)(9 - p) >= 25 gives p = 1.
    assert_eq!(sell_price(5, 5, 4, ShareKind::No), 1);
}

#[test]
fn probability_rounds_down() {
    assert_eq!(probability(1, 3), 75);
    assert_eq!(probability(2, 1), 33);
    assert_eq!(probability(1, 1), 50);
    assert_eq!(probability(1_000_000, 1), 0);
    assert_eq!(probability(1, 1_000_000), 99);
}

#[test]
fn large_reserves_do_not_overflow() {
    let big = u64::MAX / 2;
    let shares = buy_shares(big, big, big, ShareKind::Yes);
    assert!(shares >= big);
    let p = sell_price(big, big, big, ShareKind::No);
    assert!(p < big);
}

#[test]
fn round_trip_pays_back_at_most_cost() {
    for &(y, n, m) in &[(50u64, 50u64, 100u64), (7, 3, 11), (1, 1, 1), (1000, 3, 17)] {
        for kind in [ShareKind::Yes, ShareKind::No] {
            let s = buy_shares(y, n, m, kind);
            let (y2, n2) = match kind {
                ShareKind::Yes => (y + m - s, n + m),
                ShareKind::No => (y + m, n + m - s),
            };
            assert!(sell_price(y2, n2, s, kind) <= m);
        }
    }
}
