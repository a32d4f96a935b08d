//! Constant-product pricing of the two complementary share kinds.
//!
//! A market holds two reserves, `y` Yes shares and `n` No shares, whose
//! product `y * n` is its invariant. Amounts are integers, so every quotient
//! is rounded in the pool's favour: a trade never lowers the product.
use vstd::prelude::*;
use vstd::arithmetic::div_mod::lemma_fundamental_div_mod;

use crate::prediction_market::ShareKind;

verus! {

/// Shares handed to a buyer of `kind` who pays `m` into a pool `(y, n)`:
/// `m` is added to both reserves, then the bought kind's reserve shrinks until
/// the product is back at `y * n` (the quotient is rounded down).
pub open spec fn bought_shares(y: int, n: int, m: int, kind: ShareKind) -> int {
    match kind {
        ShareKind::Yes => ((y + m) * (n + m) - y * n) / (n + m),
        ShareKind::No => ((y + m) * (n + m) - y * n) / (y + m),
    }
}

/// The reserves `(y, n)` after a purchase of `kind` with `m`.
pub open spec fn reserves_after_buy(y: int, n: int, m: int, kind: ShareKind) -> (int, int) {
    match kind {
        ShareKind::Yes => (y + m - bought_shares(y, n, m, kind), n + m),
        ShareKind::No => (y + m, n + m - bought_shares(y, n, m, kind)),
    }
}

/// Whether `p` can be paid out of both reserves `(y, n)` while keeping the
/// product at least `k` and both reserves positive.
pub open spec fn payout_fits(y: int, n: int, k: int, p: int) -> bool {
    0 <= p && p < y && p < n && (y - p) * (n - p) >= k
}

/// `p` is the largest payout that fits.
pub open spec fn is_largest_payout(y: int, n: int, k: int, p: int) -> bool {
    payout_fits(y, n, k, p) && !payout_fits(y, n, k, p + 1)
}

/// The largest payout that fits: the smaller root of `(y - p) * (n - p) == k`,
/// rounded down.
pub open spec fn largest_payout(y: int, n: int, k: int) -> int {
    choose|p: int| is_largest_payout(y, n, k, p)
}

/// The reserves `(y, n)` once `s` shares of `kind` are folded back in.
pub open spec fn reserves_with_returned(y: int, n: int, s: int, kind: ShareKind) -> (int, int) {
    match kind {
        ShareKind::Yes => (y + s, n),
        ShareKind::No => (y, n + s),
    }
}

/// Money paid for `s` shares of `kind` sold back into a pool `(y, n)`: the
/// shares are folded into their reserve, then the same amount is taken from
/// both reserves so that the product stays at the old `y * n`.
pub open spec fn sale_price(y: int, n: int, s: int, kind: ShareKind) -> int {
    let (y1, n1) = reserves_with_returned(y, n, s, kind);
    largest_payout(y1, n1, y * n)
}

/// The reserves `(y, n)` after a sale of `s` shares of `kind`.
pub open spec fn reserves_after_sale(y: int, n: int, s: int, kind: ShareKind) -> (int, int) {
    let (y1, n1) = reserves_with_returned(y, n, s, kind);
    let p = sale_price(y, n, s, kind);
    (y1 - p, n1 - p)
}

/// The chance of Yes that a pool `(y, n)` implies, as a percentage rounded down.
pub open spec fn probability_of(y: int, n: int) -> int {
    (100 * n) / (y + n)
}

proof fn lemma_product_monotone(y: int, n: int, a: int, b: int)
    requires
        0 <= a <= b,
        b < y,
        b < n,
    ensures
        (y - a) * (n - a) >= (y - b) * (n - b),
{
    assert((y - a) * (n - a) >= (y - b) * (n - b)) by (nonlinear_arith)
        requires
            y - a >= y - b > 0,
            n - a >= n - b > 0,
    ;
}

/// A payout that fits stays fitting when lowered.
pub proof fn lemma_payout_fits_below(y: int, n: int, k: int, p: int, q: int)
    requires
        payout_fits(y, n, k, q),
        0 <= p <= q,
    ensures
        payout_fits(y, n, k, p),
{
    lemma_product_monotone(y, n, p, q);
}

/// From any payout that fits, a largest one exists.
proof fn lemma_largest_payout_exists(y: int, n: int, k: int, p: int)
    requires
        payout_fits(y, n, k, p),
    ensures
        exists|q: int| is_largest_payout(y, n, k, q),
    decreases y - p,
{
    if payout_fits(y, n, k, p + 1) {
        lemma_largest_payout_exists(y, n, k, p + 1);
    } else {
        assert(is_largest_payout(y, n, k, p));
    }
}

/// There is exactly one largest payout once the empty payout fits.
pub proof fn lemma_largest_payout_unique(y: int, n: int, k: int, p: int)
    requires
        is_largest_payout(y, n, k, p),
    ensures
        largest_payout(y, n, k) == p,
{
    let q = largest_payout(y, n, k);
    assert(is_largest_payout(y, n, k, q));
    if q < p {
        lemma_payout_fits_below(y, n, k, q + 1, p);
    } else if p < q {
        lemma_payout_fits_below(y, n, k, p + 1, q);
    }
}

/// The largest payout is defined whenever the pool holds the product `k`.
pub proof fn lemma_largest_payout_defined(y: int, n: int, k: int)
    requires
        0 < y,
        0 < n,
        k <= y * n,
    ensures
        is_largest_payout(y, n, k, largest_payout(y, n, k)),
{
    assert(payout_fits(y, n, k, 0));
    lemma_largest_payout_exists(y, n, k, 0);
}

/// The arithmetic of a purchase: the reduced reserve stays positive and the
/// product grows by the remainder of the division, less than the kept reserve.
pub proof fn lemma_buy_reserves(y: int, n: int, m: int, kind: ShareKind)
    requires
        0 < y,
        0 < n,
        0 <= m,
    ensures
        ({
            let (y2, n2) = reserves_after_buy(y, n, m, kind);
            &&& 0 < y2 <= y + m
            &&& 0 < n2 <= n + m
            &&& m <= bought_shares(y, n, m, kind)
            &&& y * n <= y2 * n2
            &&& kind == ShareKind::Yes ==> y2 * n2 < y * n + n2
            &&& kind == ShareKind::No ==> y2 * n2 < y * n + y2
        }),
{
    let yy = y + m;
    let nn = n + m;
    let k = y * n;
    let (kk, other) = match kind {
        ShareKind::Yes => (nn, yy),
        ShareKind::No => (yy, nn),
    };
    assert(yy * nn == other * kk) by (nonlinear_arith)
        requires
            (kk == nn && other == yy) || (kk == yy && other == nn),
    ;
    assert(k <= yy * nn) by (nonlinear_arith)
        requires
            0 < y <= yy,
            0 < n <= nn,
            k == y * n,
    ;
    assert(k > 0) by (nonlinear_arith)
        requires
            0 < y,
            0 < n,
            k == y * n,
    ;
    let d = yy * nn - k;
    let q = d / kk;
    lemma_fundamental_div_mod(d, kk);
    let rem = d % kk;
    assert(0 <= rem < kk);
    assert(d == kk * q + rem);
    assert(q == bought_shares(y, n, m, kind));
    // The reduced reserve times the kept one is the old product plus the remainder.
    assert((other - q) * kk == k + rem) by (nonlinear_arith)
        requires
            d == other * kk - k,
            d == kk * q + rem,
    ;
    assert(d - m * kk >= 0) by (nonlinear_arith)
        requires
            d == yy * nn - k,
            k == y * n,
            yy == y + m,
            nn == n + m,
            (kk == nn && other == yy) || (kk == yy && other == nn),
            0 < y,
            0 < n,
            0 <= m,
    ;
    assert(q >= m) by (nonlinear_arith)
        requires
            d == kk * q + rem,
            d >= m * kk,
            rem < kk,
            kk > 0,
    ;
    assert(0 < other - q) by (nonlinear_arith)
        requires
            (other - q) * kk == k + rem,
            k > 0,
            rem >= 0,
            kk > 0,
    ;
    assert(other - q <= other);
    assert(kind == ShareKind::Yes ==> (other - q) * kk == (yy - q) * nn);
    assert(kind == ShareKind::No ==> (other - q) * kk == yy * (nn - q)) by (nonlinear_arith)
        requires
            kind == ShareKind::No ==> kk == yy && other == nn,
    ;
}

/// Shares bought with `money` in a pool `(y, n)`.
///
/// The pool's product never drops, and rises by less than one unit of the
/// reserve that was not reduced: `y * n <= y2 * n2 < y * n + (other reserve)`.
pub fn buy_shares(y: u64, n: u64, money: u64, kind: ShareKind) -> (r: u64)
    requires
        0 < y,
        0 < n,
        y + money <= u64::MAX,
        n + money <= u64::MAX,
    ensures
        r == bought_shares(y as int, n as int, money as int, kind),
        money <= r,
        ({
            let (y2, n2) = reserves_after_buy(y as int, n as int, money as int, kind);
            &&& 0 < y2 <= y + money
            &&& 0 < n2 <= n + money
            &&& y * n <= y2 * n2
            &&& kind == ShareKind::Yes ==> y2 * n2 < y * n + n2
            &&& kind == ShareKind::No ==> y2 * n2 < y * n + y2
        }),
{
    let yy: u128 = y as u128 + money as u128;
    let nn: u128 = n as u128 + money as u128;
    assert(y * n <= u64::MAX * u64::MAX) by (nonlinear_arith)
        requires
            0 < y <= u64::MAX,
            0 < n <= u64::MAX,
    ;
    let k: u128 = y as u128 * n as u128;
    assert(yy * nn <= u64::MAX * u64::MAX) by (nonlinear_arith)
        requires
            0 <= yy <= u64::MAX,
            0 <= nn <= u64::MAX,
    ;
    assert(k <= yy * nn) by (nonlinear_arith)
        requires
            0 < y <= yy,
            0 < n <= nn,
            k == y * n,
    ;
    let grown: u128 = yy * nn - k;
    let kept: u128 = match kind {
        ShareKind::Yes => nn,
        ShareKind::No => yy,
    };
    let other: u128 = match kind {
        ShareKind::Yes => yy,
        ShareKind::No => nn,
    };
    let shares: u128 = grown / kept;
    proof {
        lemma_buy_reserves(y as int, n as int, money as int, kind);
    }
    shares as u64
}

/// The arithmetic of a sale: the payout is the largest that fits, and the
/// product stays within one unit of each reserve of its old value.
pub proof fn lemma_sale_reserves(y: int, n: int, s: int, kind: ShareKind)
    requires
        0 < y,
        0 < n,
        0 <= s,
    ensures
        ({
            let (y1, n1) = reserves_with_returned(y, n, s, kind);
            let p = sale_price(y, n, s, kind);
            &&& is_largest_payout(y1, n1, y * n, p)
            &&& y * n <= (y1 - p) * (n1 - p) < y * n + (y1 - p) + (n1 - p)
        }),
{
    let (yi, ni) = reserves_with_returned(y, n, s, kind);
    let k = y * n;
    assert(k <= yi * ni && k > 0) by (nonlinear_arith)
        requires
            0 < y <= yi,
            0 < n <= ni,
            k == y * n,
    ;
    lemma_largest_payout_defined(yi, ni, k);
    let p = largest_payout(yi, ni, k);
    if p + 1 < yi && p + 1 < ni {
        assert((yi - p) * (ni - p) == (yi - p - 1) * (ni - p - 1) + (yi - p) + (ni - p) - 1)
            by (nonlinear_arith);
    } else {
        assert((yi - p) * (ni - p) < k + (yi - p) + (ni - p)) by (nonlinear_arith)
            requires
                yi - p >= 1,
                ni - p >= 1,
                yi - p == 1 || ni - p == 1,
                k >= 1,
        ;
    }
}

/// Money paid for `shares` shares of `kind` sold back into a pool `(y, n)`.
///
/// With `(y1, n1)` the reserves once the shares are folded back in, the result
/// `p` is the largest amount such that `(y1 - p) * (n1 - p) >= y * n` with
/// both reserves still positive; so the product keeps within one unit of each
/// reserve of its old value.
pub fn sell_price(y: u64, n: u64, shares: u64, kind: ShareKind) -> (p: u64)
    requires
        0 < y,
        0 < n,
        kind == ShareKind::Yes ==> y + shares <= u64::MAX,
        kind == ShareKind::No ==> n + shares <= u64::MAX,
    ensures
        p == sale_price(y as int, n as int, shares as int, kind),
        ({
            let (y1, n1) = reserves_with_returned(y as int, n as int, shares as int, kind);
            &&& is_largest_payout(y1, n1, y * n, p as int)
            &&& y * n <= (y1 - p) * (n1 - p) < y * n + (y1 - p) + (n1 - p)
        }),
{
    let (y1, n1): (u64, u64) = match kind {
        ShareKind::Yes => (y + shares, n),
        ShareKind::No => (y, n + shares),
    };
    assert(y * n <= u64::MAX * u64::MAX && y * n > 0) by (nonlinear_arith)
        requires
            0 < y <= u64::MAX,
            0 < n <= u64::MAX,
    ;
    let k: u128 = y as u128 * n as u128;
    assert(y * n <= y1 * n1) by (nonlinear_arith)
        requires
            0 < y <= y1,
            0 < n <= n1,
    ;
    assert(payout_fits(y1 as int, n1 as int, k as int, 0));
    let mut lo: u64 = 0;
    let mut hi: u64 = if y1 < n1 {
        y1
    } else {
        n1
    };
    while hi - lo > 1
        invariant
            lo < hi,
            hi <= y1,
            hi <= n1,
            payout_fits(y1 as int, n1 as int, k as int, lo as int),
            !payout_fits(y1 as int, n1 as int, k as int, hi as int),
            k == y * n,
            k > 0,
            0 < y1,
            0 < n1,
        decreases hi - lo,
    {
        let mid: u64 = lo + (hi - lo) / 2;
        let left: u128 = (y1 - mid) as u128;
        let right: u128 = (n1 - mid) as u128;
        assert(left * right <= u64::MAX * u64::MAX) by (nonlinear_arith)
            requires
                0 <= left <= u64::MAX,
                0 <= right <= u64::MAX,
        ;
        if left * right >= k {
            lo = mid;
        } else {
            hi = mid;
        }
    }
    proof {
        assert(is_largest_payout(y1 as int, n1 as int, k as int, lo as int));
        lemma_largest_payout_unique(y1 as int, n1 as int, k as int, lo as int);
        lemma_sale_reserves(y as int, n as int, shares as int, kind);
    }
    lo
}

/// The chance of Yes that the pool `(y, n)` implies, in whole percent,
/// rounded down.
pub fn probability(y: u64, n: u64) -> (r: u8)
    requires
        0 < y,
        0 < n,
    ensures
        r == probability_of(y as int, n as int),
        r < 100,
{
    let total: u128 = y as u128 + n as u128;
    let r: u128 = (100 * n as u128) / total;
    assert(r < 100) by (nonlinear_arith)
        requires
            r == (100 * n) / (total as int),
            total == y + n,
            0 < y,
            0 < n,
    ;
    r as u8
}

/// A purchase followed at once by the sale of every share it bought pays
/// back at most what the purchase cost.
pub proof fn lemma_no_free_round_trip(y: int, n: int, m: int, kind: ShareKind)
    requires
        0 < y,
        0 < n,
        0 <= m,
    ensures
        ({
            let (y2, n2) = reserves_after_buy(y, n, m, kind);
            sale_price(y2, n2, bought_shares(y, n, m, kind), kind) <= m
        }),
{
    lemma_buy_reserves(y, n, m, kind);
    let s = bought_shares(y, n, m, kind);
    let (y2, n2) = reserves_after_buy(y, n, m, kind);
    let (y1, n1) = reserves_with_returned(y2, n2, s, kind);
    assert(y1 == y + m && n1 == n + m);
    let k = y2 * n2;
    assert(k <= y1 * n1) by (nonlinear_arith)
        requires
            0 < y2 <= y1,
            0 < n2 <= n1,
            k == y2 * n2,
    ;
    lemma_largest_payout_defined(y1, n1, k);
    let p = largest_payout(y1, n1, k);
    if p > m {
        assert((y1 - p) * (n1 - p) < y * n) by (nonlinear_arith)
            requires
                0 < y1 - p < y,
                0 < n1 - p < n,
        ;
    }
}

} // verus!
