//! Markets, the economy that holds them, and the operations on it.
//!
//! Every operation takes the economy by shared reference and hands back a new
//! economy, or an error; the economy it was called on never changes.
use vstd::prelude::*;
use im::ordmap::OrdMap;

use crate::money::{Money, UNITS_PER_COIN};
use crate::pricing::{
    bought_shares, buy_shares, lemma_buy_reserves, lemma_sale_reserves, probability, probability_of,
    reserves_after_buy, reserves_after_sale, reserves_with_returned, sale_price, sell_price,
};
use crate::share_quantity::ShareQuantity;
use crate::snapshot::{
    balances_map, lemma_valid_snapshot_well_formed, markets_map, positions_map, MarketRecord,
    Snapshot,
};
use crate::tables::{
    balance_entries, balances_empty, balances_get, balances_keys, balances_update,
    market_entries, markets_clone, markets_empty, markets_get, markets_extract, markets_keys, markets_update,
    position_entries, positions_empty, positions_get, positions_keys, positions_update,
    positions_without,
};

verus! {

pub type MarketId = u64;

pub type UserId = u64;

/// What a user holds before any operation has touched their balance.
pub const USER_START_BALANCE: u64 = 1000 * UNITS_PER_COIN;

/// What creating a market costs; the same amount seeds each of its reserves.
pub const MARKET_CREATION_COST: u64 = 50 * UNITS_PER_COIN;

/// The two outcomes a share can pay out on.
#[derive(Clone, Copy, Debug, PartialEq, Eq, Structural)]
pub enum ShareKind {
    Yes,
    No,
}

/// A user's holding in one market: shares of a single kind.
#[derive(Clone, Copy, Debug, PartialEq, Eq, Structural)]
pub struct UserShareBalance {
    pub kind: ShareKind,
    pub quantity: ShareQuantity,
}

/// Which way a recorded trade went.
#[derive(Clone, Copy, Debug, PartialEq, Eq, Structural)]
pub enum TradeSide {
    Bought,
    Sold,
}

/// One entry of a market's trade log.
#[derive(Clone, Copy, Debug, PartialEq, Eq, Structural)]
pub struct TransactionInfo {
    pub user: UserId,
    pub side: TradeSide,
    pub kind: ShareKind,
    pub shares: ShareQuantity,
    pub money: Money,
    /// The market's probability once the trade was made.
    pub new_probability: u8,
}

/// Why an operation on the economy failed.
#[derive(Clone, Copy, Debug, PartialEq, Eq, Structural)]
pub enum MarketError {
    /// No live market has the given id.
    NotFound,
    /// Only a market's creator may resolve it.
    Unauthorized,
    /// The caller's balance would go below zero.
    InsufficientFunds,
    /// A non-positive amount, or a sale of more shares than are held (any
    /// sale where none are held).
    InvalidAmount,
    /// The caller holds shares of the other kind in this market.
    ConflictingPosition,
    /// The market's close time has passed.
    MarketClosed,
    /// The market id counter is exhausted, or a balance, reserve or position
    /// would exceed what 64 bits hold.
    Overflow,
}

/// A market: an automated market maker over Yes and No shares.
#[derive(Clone, Debug)]
pub struct Market {
    pub id: MarketId,
    pub creator: UserId,
    pub question: String,
    pub description: String,
    /// The pool's reserve of Yes shares.
    pub y: ShareQuantity,
    /// The pool's reserve of No shares.
    pub n: ShareQuantity,
    pub num_user_shares: OrdMap<UserId, UserShareBalance>,
    /// Seconds since the epoch after which no trade is accepted.
    pub close_timestamp: Option<i64>,
    pub transaction_history: Option<Vec<TransactionInfo>>,
}

/// A market as a mathematical value.
pub struct MarketModel {
    pub id: MarketId,
    pub creator: UserId,
    pub question: Seq<char>,
    pub description: Seq<char>,
    pub y: u64,
    pub n: u64,
    pub positions: Map<UserId, UserShareBalance>,
    pub close_timestamp: Option<i64>,
    pub history: Option<Seq<TransactionInfo>>,
}

/// A trade log as a sequence.
pub open spec fn history_view(h: Option<Vec<TransactionInfo>>) -> Option<Seq<TransactionInfo>> {
    match h {
        Some(v) => Some(v@),
        None => None,
    }
}

/// A trade log with `t` appended, if the market keeps one.
pub open spec fn record(h: Option<Seq<TransactionInfo>>, t: TransactionInfo) -> Option<
    Seq<TransactionInfo>,
> {
    match h {
        Some(s) => Some(s.push(t)),
        None => None,
    }
}

/// A copy of a trade log.
pub(crate) fn copy_history(h: &Option<Vec<TransactionInfo>>) -> (r: Option<Vec<TransactionInfo>>)
    ensures
        history_view(r) == history_view(*h),
{
    match h {
        None => None,
        Some(v) => {
            let mut copy: Vec<TransactionInfo> = Vec::new();
            let mut i: usize = 0;
            while i < v.len()
                invariant
                    i <= v@.len(),
                    copy@ == v@.subrange(0, i as int),
                decreases v@.len() - i,
            {
                copy.push(v[i]);
                i += 1;
                assert(copy@ =~= v@.subrange(0, i as int));
            }
            assert(copy@ =~= v@);
            Some(copy)
        },
    }
}

fn record_trade(h: &Option<Vec<TransactionInfo>>, t: TransactionInfo) -> (r: Option<
    Vec<TransactionInfo>,
>)
    ensures
        history_view(r) == record(history_view(*h), t),
{
    match copy_history(h) {
        None => None,
        Some(mut v) => {
            v.push(t);
            Some(v)
        },
    }
}

/// A user's cash and positions.
pub struct Portfolio {
    pub cash: Money,
    /// The question of each market where the user holds shares, with the
    /// shares, by increasing market id.
    pub market_positions: Vec<(String, UserShareBalance)>,
}

/// Whether `a` comes before `b` in a ranking of balances: the larger balance
/// first, the smaller user id first among equal balances.
pub open spec fn ranks_before(a: (UserId, Money), b: (UserId, Money)) -> bool {
    a.1.0 > b.1.0 || (a.1.0 == b.1.0 && a.0 < b.0)
}

/// Whether one of the first `i` markets of `markets` has id `id`.
spec fn listed_before(markets: Seq<&Market>, i: int, id: MarketId) -> bool {
    exists|a: int| 0 <= a < i && #[trigger] markets[a].id == id
}

/// Sorts entries with distinct user ids by `ranks_before`.
fn rank_balances(entries: &Vec<(UserId, Money)>) -> (r: Vec<(UserId, Money)>)
    requires
        forall|i: int, j: int|
            0 <= i < j < entries@.len() ==> entries@[i].0 != entries@[j].0,
    ensures
        r@.len() == entries@.len(),
        forall|e: (UserId, Money)| r@.contains(e) <==> entries@.contains(e),
        forall|i: int, j: int| 0 <= i < j < r@.len() ==> ranks_before(r@[i], r@[j]),
{
    let mut r: Vec<(UserId, Money)> = Vec::new();
    let mut i: usize = 0;
    while i < entries.len()
        invariant
            i <= entries@.len(),
            r@.len() == i,
            forall|a: int, b: int|
                0 <= a < b < entries@.len() ==> entries@[a].0 != entries@[b].0,
            forall|e: (UserId, Money)| r@.contains(e) <==> entries@.subrange(0, i as int).contains(e),
            forall|a: int, b: int| 0 <= a < b < r@.len() ==> ranks_before(r@[a], r@[b]),
        decreases entries@.len() - i,
    {
        let x = entries[i];
        let ghost done = entries@.subrange(0, i as int);
        proof {
            assert forall|e: (UserId, Money)| r@.contains(e) implies e.0 != x.0 by {
                assert(done.contains(e));
                let j = choose|j: int| 0 <= j < done.len() && done[j] == e;
                assert(entries@[j] == e);
            }
        }
        let mut pos: usize = 0;
        while pos < r.len() && !(x.1.0 > r[pos].1.0 || (x.1.0 == r[pos].1.0 && x.0 < r[pos].0))
            invariant
                pos <= r@.len(),
                forall|a: int| 0 <= a < pos ==> ranks_before(#[trigger] r@[a], x),
                forall|e: (UserId, Money)| r@.contains(e) ==> e.0 != x.0,
            decreases r@.len() - pos,
        {
            proof {
                assert(r@.contains(r@[pos as int]));
            }
            pos += 1;
        }
        let ghost before = r@;
        r.insert(pos, x);
        proof {
            assert(pos < before.len() ==> ranks_before(x, before[pos as int]));
            assert forall|a: int, b: int| 0 <= a < b < r@.len() implies ranks_before(r@[a], r@[b]) by {
                let p = pos as int;
                if b < p {
                    assert(r@[a] == before[a] && r@[b] == before[b]);
                } else if b == p {
                    assert(r@[a] == before[a] && r@[b] == x);
                } else if a < p {
                    assert(r@[a] == before[a] && r@[b] == before[b - 1]);
                    assert(ranks_before(before[a], x));
                    if p < b - 1 {
                        assert(ranks_before(before[p], before[b - 1]));
                    }
                } else if a == p {
                    assert(r@[a] == x && r@[b] == before[b - 1]);
                    if p < b - 1 {
                        assert(ranks_before(before[p], before[b - 1]));
                    }
                } else {
                    assert(r@[a] == before[a - 1] && r@[b] == before[b - 1]);
                }
            }
            let next = entries@.subrange(0, i as int + 1);
            assert(next =~= done.push(x));
            assert forall|e: (UserId, Money)| r@.contains(e) <==> next.contains(e) by {
                if r@.contains(e) {
                    let j = choose|j: int| 0 <= j < r@.len() && r@[j] == e;
                    if j < pos {
                        assert(before.contains(e));
                    } else if j > pos {
                        assert(before[j - 1] == e);
                        assert(before.contains(e));
                    }
                    if e != x {
                        assert(done.contains(e));
                        let k = choose|k: int| 0 <= k < done.len() && done[k] == e;
                        assert(next[k] == e);
                    } else {
                        assert(next[i as int] == e);
                    }
                }
                if next.contains(e) {
                    let k = choose|k: int| 0 <= k < next.len() && next[k] == e;
                    if k < i {
                        assert(done[k] == e);
                        assert(before.contains(e));
                        let j = choose|j: int| 0 <= j < before.len() && before[j] == e;
                        if j < pos {
                            assert(r@[j] == e);
                        } else {
                            assert(r@[j + 1] == e);
                        }
                    } else {
                        assert(r@[pos as int] == e);
                    }
                }
            }
        }
        i += 1;
    }
    proof {
        assert(entries@.subrange(0, entries@.len() as int) =~= entries@);
    }
    r
}

impl View for Market {
    type V = MarketModel;

    open spec fn view(&self) -> MarketModel {
        MarketModel {
            id: self.id,
            creator: self.creator,
            question: self.question@,
            description: self.description@,
            y: self.y.0,
            n: self.n.0,
            positions: position_entries(self.num_user_shares),
            close_timestamp: self.close_timestamp,
            history: history_view(self.transaction_history),
        }
    }
}

impl MarketModel {
    /// Whether trades are accepted at time `now`.
    pub open spec fn open_at(self, now: i64) -> bool {
        match self.close_timestamp {
            None => true,
            Some(t) => now < t,
        }
    }

    pub open spec fn probability(self) -> int {
        probability_of(self.y as int, self.n as int)
    }

    /// Reserves positive, positions held in positive quantities.
    pub open spec fn wf(self) -> bool {
        &&& 0 < self.y
        &&& 0 < self.n
        &&& self.positions.dom().finite()
        &&& forall|u: UserId| #[trigger]
            self.positions.contains_key(u) ==> self.positions[u].quantity.0 > 0
    }
}

/// Relies on chrono's `Local::now`: the current time. Nothing is promised of
/// its value.
#[verifier::external_body]
fn now_timestamp() -> (r: i64) {
    chrono::Local::now().timestamp()
}

impl Market {
    /// The chance of Yes that the reserves imply, in whole percent rounded down.
    pub fn probability(&self) -> (r: u8)
        requires
            self@.wf(),
        ensures
            r == self@.probability(),
    {
        probability(self.y.0, self.n.0)
    }

    /// Whether trades are accepted at time `now` (seconds since the epoch).
    pub fn is_open_at(&self, now: i64) -> (r: bool)
        ensures
            r == self@.open_at(now),
    {
        match self.close_timestamp {
            None => true,
            Some(t) => now < t,
        }
    }

    /// Whether trades are accepted now.
    pub fn is_open(&self) -> (r: bool)
        ensures
            self.close_timestamp.is_none() ==> r,
            exists|now: i64| r == self@.open_at(now),
    {
        let now = now_timestamp();
        let r = self.is_open_at(now);
        assert(r == self@.open_at(now));
        r
    }
}

/// The whole state of the economy: balances, live markets and the id that the
/// next market gets.
pub struct Economy {
    next_market_id: MarketId,
    user_money: OrdMap<UserId, u64>,
    markets: OrdMap<MarketId, Market>,
}

/// The economy as a mathematical value. A user without an entry in
/// `balances` has `USER_START_BALANCE`.
pub struct EconomyModel {
    pub next_market_id: MarketId,
    pub balances: Map<UserId, u64>,
    pub markets: Map<MarketId, MarketModel>,
}

/// The models of the markets that a map holds.
pub open spec fn markets_view(m: OrdMap<MarketId, Market>) -> Map<MarketId, MarketModel> {
    Map::new(|k: MarketId| market_entries(m).contains_key(k), |k: MarketId| market_entries(m)[k]@)
}

impl View for Economy {
    type V = EconomyModel;

    closed spec fn view(&self) -> EconomyModel {
        EconomyModel {
            next_market_id: self.next_market_id,
            balances: balance_entries(self.user_money),
            markets: markets_view(self.markets),
        }
    }
}

/// The model of an operation's result that carries a new economy.
pub open spec fn economy_result<T>(r: Result<(Economy, T), MarketError>) -> Result<
    (EconomyModel, T),
    MarketError,
> {
    match r {
        Ok((e, t)) => Ok((e@, t)),
        Err(x) => Err(x),
    }
}

/// The balance that `balances` gives `user`, the starting balance for a user
/// without an entry.
pub open spec fn balance_in(balances: Map<UserId, u64>, user: UserId) -> u64 {
    if balances.contains_key(user) {
        balances[user]
    } else {
        USER_START_BALANCE
    }
}

fn lookup_balance(balances: &OrdMap<UserId, u64>, user: UserId) -> (r: u64)
    ensures
        r == balance_in(balance_entries(*balances), user),
{
    match balances_get(balances, user) {
        Some(b) => b,
        None => USER_START_BALANCE,
    }
}

impl EconomyModel {
    /// A user's balance, the starting balance for one never seen before.
    pub open spec fn balance(self, user: UserId) -> u64 {
        balance_in(self.balances, user)
    }

    /// Every live market is well formed, is filed under its own id, and that
    /// id was handed out before.
    pub open spec fn wf(self) -> bool {
        &&& self.balances.dom().finite()
        &&& self.markets.dom().finite()
        &&& forall|id: MarketId| #[trigger]
            self.markets.contains_key(id) ==> {
                &&& id < self.next_market_id
                &&& self.markets[id].id == id
                &&& self.markets[id].wf()
            }
    }

    /// The market that `create_market` opens.
    pub open spec fn new_market(
        id: MarketId,
        creator: UserId,
        question: Seq<char>,
        description: Seq<char>,
        close_timestamp: Option<i64>,
    ) -> MarketModel {
        MarketModel {
            id,
            creator,
            question,
            description,
            y: MARKET_CREATION_COST,
            n: MARKET_CREATION_COST,
            positions: Map::empty(),
            close_timestamp,
            history: Some(Seq::empty()),
        }
    }

    /// Opening a market: the next id is taken and the creator pays the
    /// creation cost, which seeds both reserves.
    pub open spec fn create_market(
        self,
        creator: UserId,
        question: Seq<char>,
        description: Seq<char>,
        close_timestamp: Option<i64>,
    ) -> Result<(EconomyModel, MarketId), MarketError> {
        let id = self.next_market_id;
        if id == u64::MAX {
            Err(MarketError::Overflow)
        } else if self.balance(creator) < MARKET_CREATION_COST {
            Err(MarketError::InsufficientFunds)
        } else {
            Ok(
                (
                    EconomyModel {
                        next_market_id: (id + 1) as u64,
                        balances: self.balances.insert(
                            creator,
                            (self.balance(creator) - MARKET_CREATION_COST) as u64,
                        ),
                        markets: self.markets.insert(
                            id,
                            Self::new_market(id, creator, question, description, close_timestamp),
                        ),
                    },
                    id,
                ),
            )
        }
    }

    /// Sending `amount` from `from` to `to`.
    pub open spec fn tip(self, from: UserId, to: UserId, amount: u64) -> Result<
        EconomyModel,
        MarketError,
    > {
        let debited = self.balances.insert(from, (self.balance(from) - amount) as u64);

        if amount == 0 {
            Err(MarketError::InvalidAmount)
        } else if self.balance(from) < amount {
            Err(MarketError::InsufficientFunds)
        } else if balance_in(debited, to) + amount > u64::MAX {
            Err(MarketError::Overflow)
        } else {
            Ok(EconomyModel { balances: debited.insert(to, (balance_in(debited, to) + amount) as u64), ..self })
        }
    }
}

impl EconomyModel {
    /// Buying `kind` with `amount` in market `market_id` at time `now`: the
    /// amount leaves the buyer's balance, enters both reserves, and the shares
    /// that the pricing gives are added to the buyer's position.
    pub open spec fn buy(
        self,
        user: UserId,
        market_id: MarketId,
        amount: u64,
        kind: ShareKind,
        now: i64,
    ) -> Result<(EconomyModel, ShareQuantity), MarketError> {
        let m = self.markets[market_id];
        let held = m.positions.contains_key(user);
        let old_quantity: int = if held {
            m.positions[user].quantity.0 as int
        } else {
            0
        };
        let shares = bought_shares(m.y as int, m.n as int, amount as int, kind);
        let (y2, n2) = reserves_after_buy(m.y as int, m.n as int, amount as int, kind);
        if amount == 0 {
            Err(MarketError::InvalidAmount)
        } else if !self.markets.contains_key(market_id) {
            Err(MarketError::NotFound)
        } else if !m.open_at(now) {
            Err(MarketError::MarketClosed)
        } else if self.balance(user) < amount {
            Err(MarketError::InsufficientFunds)
        } else if held && m.positions[user].kind != kind {
            Err(MarketError::ConflictingPosition)
        } else if m.y + amount > u64::MAX || m.n + amount > u64::MAX || old_quantity + shares
            > u64::MAX {
            Err(MarketError::Overflow)
        } else {
            let position = UserShareBalance {
                kind,
                quantity: ShareQuantity((old_quantity + shares) as u64),
            };
            let info = TransactionInfo {
                user,
                side: TradeSide::Bought,
                kind,
                shares: ShareQuantity(shares as u64),
                money: Money(amount),
                new_probability: probability_of(y2, n2) as u8,
            };
            let traded = MarketModel {
                y: y2 as u64,
                n: n2 as u64,
                positions: m.positions.insert(user, position),
                history: record(m.history, info),
                ..m
            };
            Ok(
                (
                    EconomyModel {
                        balances: self.balances.insert(user, (self.balance(user) - amount) as u64),
                        markets: self.markets.insert(market_id, traded),
                        ..self
                    },
                    ShareQuantity(shares as u64),
                ),
            )
        }
    }
}

/// The model of a sale's result.
pub open spec fn sale_result(r: Result<(Economy, UserShareBalance, Money), MarketError>) -> Result<
    (EconomyModel, UserShareBalance, Money),
    MarketError,
> {
    match r {
        Ok((e, sold, price)) => Ok((e@, sold, price)),
        Err(x) => Err(x),
    }
}

/// An optional number of shares as an optional integer.
pub open spec fn quantity_view(q: Option<ShareQuantity>) -> Option<u64> {
    match q {
        Some(a) => Some(a.0),
        None => None,
    }
}

impl EconomyModel {
    /// `entries` lists, for each market of `ids` in turn, its question and
    /// the position of `user` in it; `ids` holds, in increasing order, the
    /// live markets where `user` holds a position.
    pub open spec fn lists_positions(
        self,
        user: UserId,
        ids: Seq<MarketId>,
        entries: Seq<(String, UserShareBalance)>,
    ) -> bool {
        &&& forall|i: int, j: int| 0 <= i < j < ids.len() ==> ids[i] < ids[j]
        &&& forall|id: MarketId|
            ids.contains(id) <==> self.markets.contains_key(id)
                && self.markets[id].positions.contains_key(user)
        &&& entries.len() == ids.len()
        &&& forall|i: int|
            0 <= i < ids.len() ==> (#[trigger] entries[i]).0@ == self.markets[ids[i]].question
                && entries[i].1 == self.markets[ids[i]].positions[user]
    }

    /// Selling `amount` shares (all that are held when `None`) in market
    /// `market_id` at time `now`: the shares leave the seller's position and
    /// return to their reserve, and the sale price is paid out of both
    /// reserves to the seller.
    pub open spec fn sell(self, user: UserId, market_id: MarketId, amount: Option<u64>, now: i64) -> Result<
        (EconomyModel, UserShareBalance, Money),
        MarketError,
    > {
        let m = self.markets[market_id];
        let held = m.positions[user];
        let s: u64 = match amount {
            Some(a) => a,
            None => held.quantity.0,
        };
        let (y1, n1) = reserves_with_returned(m.y as int, m.n as int, s as int, held.kind);
        let price = sale_price(m.y as int, m.n as int, s as int, held.kind);
        let (y2, n2) = reserves_after_sale(m.y as int, m.n as int, s as int, held.kind);
        if !self.markets.contains_key(market_id) {
            Err(MarketError::NotFound)
        } else if !m.open_at(now) {
            Err(MarketError::MarketClosed)
        } else if !m.positions.contains_key(user) || s == 0 || s > held.quantity.0 {
            Err(MarketError::InvalidAmount)
        } else if y1 > u64::MAX || n1 > u64::MAX || self.balance(user) + price > u64::MAX {
            Err(MarketError::Overflow)
        } else {
            let rest = (held.quantity.0 - s) as u64;
            let positions = if rest == 0 {
                m.positions.remove(user)
            } else {
                m.positions.insert(user, UserShareBalance { kind: held.kind, quantity: ShareQuantity(rest) })
            };
            let info = TransactionInfo {
                user,
                side: TradeSide::Sold,
                kind: held.kind,
                shares: ShareQuantity(s),
                money: Money(price as u64),
                new_probability: probability_of(y2, n2) as u8,
            };
            let traded = MarketModel {
                y: y2 as u64,
                n: n2 as u64,
                positions,
                history: record(m.history, info),
                ..m
            };
            Ok(
                (
                    EconomyModel {
                        balances: self.balances.insert(user, (self.balance(user) + price) as u64),
                        markets: self.markets.insert(market_id, traded),
                        ..self
                    },
                    UserShareBalance { kind: held.kind, quantity: ShareQuantity(s) },
                    Money(price as u64),
                ),
            )
        }
    }
}

/// Whether `user` wins shares of `outcome` in market `m`.
pub open spec fn holds_winning(m: MarketModel, outcome: ShareKind, user: UserId) -> bool {
    m.positions.contains_key(user) && m.positions[user].kind == outcome
}

/// The reserve of `kind` in market `m`.
pub open spec fn reserve_of(m: MarketModel, kind: ShareKind) -> u64 {
    match kind {
        ShareKind::Yes => m.y,
        ShareKind::No => m.n,
    }
}

/// What resolving `m` to `outcome` pays `user`: one coin per winning share,
/// and to the creator the reserve of the winning kind.
pub open spec fn settlement(m: MarketModel, outcome: ShareKind, user: UserId) -> int {
    (if holds_winning(m, outcome, user) {
        m.positions[user].quantity.0 as int
    } else {
        0
    }) + (if user == m.creator {
        reserve_of(m, outcome) as int
    } else {
        0
    })
}

/// Whether resolving `m` to `outcome` credits `user` (with a possibly zero
/// amount): the winners and the creator.
pub open spec fn is_credited(m: MarketModel, outcome: ShareKind, user: UserId) -> bool {
    holds_winning(m, outcome, user) || user == m.creator
}

/// The balances once `m` is resolved to `outcome`.
pub open spec fn settled_balances(
    balances: Map<UserId, u64>,
    m: MarketModel,
    outcome: ShareKind,
) -> Map<UserId, u64> {
    Map::new(
        |u: UserId| balances.contains_key(u) || is_credited(m, outcome, u),
        |u: UserId| (balance_in(balances, u) + settlement(m, outcome, u)) as u64,
    )
}

/// The balances once the winners among `done` are paid for their shares.
spec fn paid_winners(
    balances: Map<UserId, u64>,
    m: MarketModel,
    outcome: ShareKind,
    done: Seq<UserId>,
) -> Map<UserId, u64> {
    Map::new(
        |u: UserId| balances.contains_key(u) || (done.contains(u) && holds_winning(m, outcome, u)),
        |u: UserId|
            if done.contains(u) && holds_winning(m, outcome, u) {
                (balance_in(balances, u) + m.positions[u].quantity.0) as u64
            } else {
                balance_in(balances, u)
            },
    )
}

impl EconomyModel {
    /// Resolving market `market_id` to `outcome`, which only its creator may
    /// do: every holder of the winning kind gets one coin per share, the
    /// creator gets the winning kind's reserve, and the market leaves the
    /// economy. The market as it was is returned.
    pub open spec fn resolve_market(self, user: UserId, market_id: MarketId, outcome: ShareKind) -> Result<
        (EconomyModel, MarketModel),
        MarketError,
    > {
        let m = self.markets[market_id];
        if !self.markets.contains_key(market_id) {
            Err(MarketError::NotFound)
        } else if user != m.creator {
            Err(MarketError::Unauthorized)
        } else if exists|u: UserId|
            is_credited(m, outcome, u) && balance_in(self.balances, u) + #[trigger] settlement(
                m,
                outcome,
                u,
            ) > u64::MAX {
            Err(MarketError::Overflow)
        } else {
            Ok(
                (
                    EconomyModel {
                        balances: settled_balances(self.balances, m, outcome),
                        markets: self.markets.remove(market_id),
                        ..self
                    },
                    m,
                ),
            )
        }
    }
}

/// A purchase keeps the product of the market's reserves, up to rounding in
/// the pool's favour: measured before the amount is injected and after the
/// shares are taken out, it never falls and rises by less than the new
/// reserves' sum.
pub proof fn lemma_buy_keeps_product(
    e: EconomyModel,
    user: UserId,
    market_id: MarketId,
    amount: u64,
    kind: ShareKind,
    now: i64,
)
    requires
        e.wf(),
        e.buy(user, market_id, amount, kind, now) is Ok,
    ensures
        ({
            let m = e.markets[market_id];
            let m2 = e.buy(user, market_id, amount, kind, now)->Ok_0.0.markets[market_id];
            m.y * m.n <= m2.y * m2.n < m.y * m.n + m2.y + m2.n
        }),
{
    let m = e.markets[market_id];
    lemma_buy_reserves(m.y as int, m.n as int, amount as int, kind);
}

/// A sale keeps the product of the market's reserves, up to rounding in the
/// pool's favour: after the shares are returned and the price is paid out of
/// both reserves, it never falls and rises by less than the new reserves' sum.
pub proof fn lemma_sell_keeps_product(
    e: EconomyModel,
    user: UserId,
    market_id: MarketId,
    amount: Option<u64>,
    now: i64,
)
    requires
        e.wf(),
        e.sell(user, market_id, amount, now) is Ok,
    ensures
        ({
            let m = e.markets[market_id];
            let m2 = e.sell(user, market_id, amount, now)->Ok_0.0.markets[market_id];
            m.y * m.n <= m2.y * m2.n < m.y * m.n + m2.y + m2.n
        }),
{
    let m = e.markets[market_id];
    let held = m.positions[user];
    let s: u64 = match amount {
        Some(a) => a,
        None => held.quantity.0,
    };
    lemma_sale_reserves(m.y as int, m.n as int, s as int, held.kind);
}

/// Buying into a market where one holds nothing, then at once selling the
/// whole position, pays back no more than the purchase cost.
pub proof fn lemma_no_free_round_trip(
    e: EconomyModel,
    user: UserId,
    market_id: MarketId,
    amount: u64,
    kind: ShareKind,
    now: i64,
)
    requires
        e.wf(),
        e.markets.contains_key(market_id),
        !e.markets[market_id].positions.contains_key(user),
        e.buy(user, market_id, amount, kind, now) is Ok,
        e.buy(user, market_id, amount, kind, now)->Ok_0.0.sell(user, market_id, None, now) is Ok,
    ensures
        e.buy(user, market_id, amount, kind, now)->Ok_0.0.sell(user, market_id, None, now)->Ok_0.2.0
            <= amount,
{
    let m = e.markets[market_id];
    lemma_buy_reserves(m.y as int, m.n as int, amount as int, kind);
    crate::pricing::lemma_no_free_round_trip(m.y as int, m.n as int, amount as int, kind);
    let e2 = e.buy(user, market_id, amount, kind, now)->Ok_0.0;
    let m2 = e2.markets[market_id];
    let shares = bought_shares(m.y as int, m.n as int, amount as int, kind);
    let (y2, n2) = reserves_after_buy(m.y as int, m.n as int, amount as int, kind);
    assert(m2.y == y2 && m2.n == n2);
    assert(m2.positions[user].quantity.0 == shares);
    assert(m2.positions[user].kind == kind);
    lemma_sale_reserves(y2, n2, shares, kind);
}

proof fn lemma_prefix_contains<A>(s: Seq<A>, i: int)
    requires
        0 <= i < s.len(),
    ensures
        forall|v: A| #[trigger]
            s.subrange(0, i + 1).contains(v) <==> s.subrange(0, i).contains(v) || v == s[i],
{
    let next = s.subrange(0, i + 1);
    let done = s.subrange(0, i);
    assert(next =~= done.push(s[i]));
    assert forall|v: A| #[trigger] next.contains(v) <==> done.contains(v) || v == s[i] by {
        if next.contains(v) && v != s[i] {
            let j = choose|j: int| 0 <= j < next.len() && next[j] == v;
            assert(done[j] == v);
        }
        if done.contains(v) {
            let j = choose|j: int| 0 <= j < done.len() && done[j] == v;
            assert(next[j] == v);
        }
        if v == s[i] {
            assert(next[i] == v);
        }
    }
}

/// The record of a market, positions listed by user.
fn market_record(m: &Market) -> (r: MarketRecord)
    requires
        m@.wf(),
    ensures
        r@ == m@,
        forall|i: int| 0 <= i < r.positions@.len() ==> (#[trigger] r.positions@[i]).1.quantity.0 > 0,
{
    let users = positions_keys(&m.num_user_shares);
    let ghost held = m@.positions;
    let mut positions: Vec<(UserId, UserShareBalance)> = Vec::new();
    let mut i: usize = 0;
    while i < users.len()
        invariant
            i <= users@.len(),
            held == m@.positions,
            m@.wf(),
            forall|k: u64| held.contains_key(k) <==> users@.contains(k),
            positions_map(positions@) == Map::new(
                |u: UserId| users@.subrange(0, i as int).contains(u),
                |u: UserId| held[u],
            ),
            forall|a: int| 0 <= a < positions@.len() ==> (#[trigger] positions@[a]).1.quantity.0 > 0,
        decreases users@.len() - i,
    {
        let u = users[i];
        proof {
            assert(users@.contains(u));
            lemma_prefix_contains(users@, i as int);
        }
        let b = positions_get(&m.num_user_shares, u).unwrap();
        let ghost before = positions@;
        positions.push((u, b));
        proof {
            assert(positions@.drop_last() =~= before);
            assert(positions_map(positions@) =~= Map::new(
                |v: UserId| users@.subrange(0, i + 1).contains(v),
                |v: UserId| held[v],
            ));
        }
        i += 1;
    }
    proof {
        assert(users@.subrange(0, users@.len() as int) =~= users@);
        assert(positions_map(positions@) =~= held);
    }
    MarketRecord {
        id: m.id,
        creator: m.creator,
        question: m.question.clone(),
        description: m.description.clone(),
        y: m.y,
        n: m.n,
        positions,
        close_timestamp: m.close_timestamp,
        transaction_history: copy_history(&m.transaction_history),
    }
}

/// Whether a market record is valid for an economy whose next id is
/// `next_market_id`.
fn record_valid(r: &MarketRecord, next_market_id: MarketId) -> (b: bool)
    ensures
        b == r.valid(next_market_id),
{
    if r.id >= next_market_id || r.y.0 == 0 || r.n.0 == 0 {
        return false;
    }
    let mut i: usize = 0;
    while i < r.positions.len()
        invariant
            i <= r.positions@.len(),
            forall|a: int| 0 <= a < i ==> (#[trigger] r.positions@[a]).1.quantity.0 > 0,
        decreases r.positions@.len() - i,
    {
        if r.positions[i].1.quantity.0 == 0 {
            return false;
        }
        i += 1;
    }
    true
}

/// The market that a record describes.
fn market_from_record(r: &MarketRecord) -> (m: Market)
    ensures
        m@ == r@,
{
    let mut positions = positions_empty();
    proof {
        assert(position_entries(positions) =~= positions_map(r.positions@.subrange(0, 0)));
    }
    let mut i: usize = 0;
    while i < r.positions.len()
        invariant
            i <= r.positions@.len(),
            position_entries(positions) == positions_map(r.positions@.subrange(0, i as int)),
        decreases r.positions@.len() - i,
    {
        let (u, b) = r.positions[i];
        positions = positions_update(&positions, u, b);
        proof {
            assert(r.positions@.subrange(0, i + 1).drop_last() =~= r.positions@.subrange(0, i as int));
        }
        i += 1;
    }
    proof {
        assert(r.positions@.subrange(0, r.positions@.len() as int) =~= r.positions@);
    }
    Market {
        id: r.id,
        creator: r.creator,
        question: r.question.clone(),
        description: r.description.clone(),
        y: r.y,
        n: r.n,
        num_user_shares: positions,
        close_timestamp: r.close_timestamp,
        transaction_history: copy_history(&r.transaction_history),
    }
}

proof fn lemma_markets_view_update(m: OrdMap<MarketId, Market>, r: OrdMap<MarketId, Market>, k: MarketId, v: Market)
    requires
        market_entries(r) == market_entries(m).insert(k, v),
    ensures
        markets_view(r) == markets_view(m).insert(k, v@),
{
    assert(markets_view(r) =~= markets_view(m).insert(k, v@));
}

proof fn lemma_markets_view_without(m: OrdMap<MarketId, Market>, r: OrdMap<MarketId, Market>, k: MarketId)
    requires
        market_entries(r) == market_entries(m).remove(k),
    ensures
        markets_view(r) == markets_view(m).remove(k),
{
    assert(markets_view(r) =~= markets_view(m).remove(k));
}

impl Economy {
    /// Well formed: see `EconomyModel::wf`.
    pub open spec fn wf(&self) -> bool {
        self@.wf()
    }

    /// An economy with no balances and no markets.
    pub fn new() -> (r: Economy)
        ensures
            r.wf(),
            r@.next_market_id == 0,
            r@.balances == Map::<UserId, u64>::empty(),
            r@.markets == Map::<MarketId, MarketModel>::empty(),
    {
        let r = Economy { next_market_id: 0, user_money: balances_empty(), markets: markets_empty() };
        proof {
            assert(r@.balances =~= Map::<UserId, u64>::empty());
            assert(r@.markets =~= Map::<MarketId, MarketModel>::empty());
        }
        r
    }

    /// The live market with the given id.
    pub fn market(&self, market_id: MarketId) -> (r: Result<&Market, MarketError>)
        ensures
            match r {
                Ok(m) => self@.markets.contains_key(market_id) && m@ == self@.markets[market_id],
                Err(x) => !self@.markets.contains_key(market_id) && x == MarketError::NotFound,
            },
    {
        match markets_get(&self.markets, market_id) {
            Some(m) => Ok(m),
            None => Err(MarketError::NotFound),
        }
    }

    /// A user's balance, the starting balance for one never seen before.
    pub fn balance(&self, user: UserId) -> (r: Money)
        ensures
            r.0 == self@.balance(user),
    {
        Money(lookup_balance(&self.user_money, user))
    }

    /// Opens a market asking `question`, paid for by `calling_user`.
    pub fn create_market(
        &self,
        calling_user: UserId,
        question: String,
        description: String,
        close_timestamp: Option<i64>,
    ) -> (r: Result<(Economy, MarketId), MarketError>)
        requires
            self.wf(),
        ensures
            economy_result(r) == self@.create_market(
                calling_user,
                question@,
                description@,
                close_timestamp,
            ),
            r matches Ok((e, _)) ==> e.wf(),
    {
        let market_id = self.next_market_id;
        if market_id == u64::MAX {
            return Err(MarketError::Overflow);
        }
        let funds = self.balance(calling_user).0;
        if funds < MARKET_CREATION_COST {
            return Err(MarketError::InsufficientFunds);
        }
        let user_money = balances_update(&self.user_money, calling_user, funds - MARKET_CREATION_COST);
        let ghost q = question@;
        let ghost d = description@;
        let market = Market {
            id: market_id,
            creator: calling_user,
            question,
            description,
            y: ShareQuantity(MARKET_CREATION_COST),
            n: ShareQuantity(MARKET_CREATION_COST),
            num_user_shares: positions_empty(),
            close_timestamp,
            transaction_history: Some(Vec::new()),
        };
        let markets = markets_update(&self.markets, market_id, market);
        let e = Economy { next_market_id: market_id + 1, user_money, markets };
        proof {
            assert(position_entries(market.num_user_shares) =~= Map::empty());
            assert(market@ == EconomyModel::new_market(market_id, calling_user, q, d, close_timestamp));
            lemma_markets_view_update(self.markets, markets, market_id, market);
            assert(e@.markets.dom() =~= self@.markets.dom().insert(market_id));
        }
        Ok((e, market_id))
    }

    /// Buys `share_kind` with `purchase_price` in market `market_id`, at time
    /// `now` (seconds since the epoch).
    pub fn buy_at(
        &self,
        calling_user: UserId,
        market_id: MarketId,
        purchase_price: Money,
        share_kind: ShareKind,
        now: i64,
    ) -> (r: Result<(Economy, ShareQuantity), MarketError>)
        requires
            self.wf(),
        ensures
            economy_result(r) == self@.buy(calling_user, market_id, purchase_price.0, share_kind, now),
            r matches Ok((e, _)) ==> e.wf(),
    {
        let amount = purchase_price.0;
        if amount == 0 {
            return Err(MarketError::InvalidAmount);
        }
        let market = match markets_get(&self.markets, market_id) {
            Some(m) => m,
            None => return Err(MarketError::NotFound),
        };
        proof {
            assert(self@.markets.contains_key(market_id));
            assert(market@ == self@.markets[market_id]);
        }
        if !market.is_open_at(now) {
            return Err(MarketError::MarketClosed);
        }
        let funds = lookup_balance(&self.user_money, calling_user);
        if funds < amount {
            return Err(MarketError::InsufficientFunds);
        }
        let old_quantity: u64 = match positions_get(&market.num_user_shares, calling_user) {
            Some(b) => {
                if b.kind != share_kind {
                    return Err(MarketError::ConflictingPosition);
                }
                b.quantity.0
            },
            None => 0,
        };
        let y = market.y.0;
        let n = market.n.0;
        if y > u64::MAX - amount || n > u64::MAX - amount {
            return Err(MarketError::Overflow);
        }
        let shares = buy_shares(y, n, amount, share_kind);
        if old_quantity > u64::MAX - shares {
            return Err(MarketError::Overflow);
        }
        let (y2, n2): (u64, u64) = match share_kind {
            ShareKind::Yes => (y + amount - shares, n + amount),
            ShareKind::No => (y + amount, n + amount - shares),
        };
        let info = TransactionInfo {
            user: calling_user,
            side: TradeSide::Bought,
            kind: share_kind,
            shares: ShareQuantity(shares),
            money: purchase_price,
            new_probability: probability(y2, n2),
        };
        let position = UserShareBalance {
            kind: share_kind,
            quantity: ShareQuantity(old_quantity + shares),
        };
        let traded = Market {
            id: market.id,
            creator: market.creator,
            question: market.question.clone(),
            description: market.description.clone(),
            y: ShareQuantity(y2),
            n: ShareQuantity(n2),
            num_user_shares: positions_update(&market.num_user_shares, calling_user, position),
            close_timestamp: market.close_timestamp,
            transaction_history: record_trade(&market.transaction_history, info),
        };
        let user_money = balances_update(&self.user_money, calling_user, funds - amount);
        let markets = markets_update(&self.markets, market_id, traded);
        let e = Economy { next_market_id: self.next_market_id, user_money, markets };
        proof {
            lemma_markets_view_update(self.markets, markets, market_id, traded);
            assert(e@.markets.dom() =~= self@.markets.dom());
        }
        Ok((e, ShareQuantity(shares)))
    }

    /// Buys `share_kind` with `purchase_price` in market `market_id`, now.
    pub fn buy(
        &self,
        calling_user: UserId,
        market_id: MarketId,
        purchase_price: Money,
        share_kind: ShareKind,
    ) -> (r: Result<(Economy, ShareQuantity), MarketError>)
        requires
            self.wf(),
        ensures
            exists|now: i64|
                economy_result(r) == #[trigger] self@.buy(
                    calling_user,
                    market_id,
                    purchase_price.0,
                    share_kind,
                    now,
                ),
            r matches Ok((e, _)) ==> e.wf(),
    {
        let now = now_timestamp();
        self.buy_at(calling_user, market_id, purchase_price, share_kind, now)
    }

    /// Sells `sell_amount` shares (all that are held when `None`) in market
    /// `market_id`, at time `now` (seconds since the epoch). Returns what was
    /// sold and what it paid.
    pub fn sell_at(
        &self,
        calling_user: UserId,
        market_id: MarketId,
        sell_amount: Option<ShareQuantity>,
        now: i64,
    ) -> (r: Result<(Economy, UserShareBalance, Money), MarketError>)
        requires
            self.wf(),
        ensures
            sale_result(r) == self@.sell(calling_user, market_id, quantity_view(sell_amount), now),
            r matches Ok((e, _, _)) ==> e.wf(),
    {
        let market = match markets_get(&self.markets, market_id) {
            Some(m) => m,
            None => return Err(MarketError::NotFound),
        };
        proof {
            assert(self@.markets.contains_key(market_id));
            assert(market@ == self@.markets[market_id]);
        }
        if !market.is_open_at(now) {
            return Err(MarketError::MarketClosed);
        }
        let held = match positions_get(&market.num_user_shares, calling_user) {
            Some(b) => b,
            None => return Err(MarketError::InvalidAmount),
        };
        let shares: u64 = match sell_amount {
            Some(a) => a.0,
            None => held.quantity.0,
        };
        if shares == 0 || shares > held.quantity.0 {
            return Err(MarketError::InvalidAmount);
        }
        let y = market.y.0;
        let n = market.n.0;
        match held.kind {
            ShareKind::Yes => {
                if y > u64::MAX - shares {
                    return Err(MarketError::Overflow);
                }
            },
            ShareKind::No => {
                if n > u64::MAX - shares {
                    return Err(MarketError::Overflow);
                }
            },
        }
        let price = sell_price(y, n, shares, held.kind);
        let funds = lookup_balance(&self.user_money, calling_user);
        if funds > u64::MAX - price {
            return Err(MarketError::Overflow);
        }
        let (y2, n2): (u64, u64) = match held.kind {
            ShareKind::Yes => (y + shares - price, n - price),
            ShareKind::No => (y - price, n + shares - price),
        };
        let rest = held.quantity.0 - shares;
        let positions = if rest == 0 {
            positions_without(&market.num_user_shares, calling_user)
        } else {
            positions_update(
                &market.num_user_shares,
                calling_user,
                UserShareBalance { kind: held.kind, quantity: ShareQuantity(rest) },
            )
        };
        let info = TransactionInfo {
            user: calling_user,
            side: TradeSide::Sold,
            kind: held.kind,
            shares: ShareQuantity(shares),
            money: Money(price),
            new_probability: probability(y2, n2),
        };
        let traded = Market {
            id: market.id,
            creator: market.creator,
            question: market.question.clone(),
            description: market.description.clone(),
            y: ShareQuantity(y2),
            n: ShareQuantity(n2),
            num_user_shares: positions,
            close_timestamp: market.close_timestamp,
            transaction_history: record_trade(&market.transaction_history, info),
        };
        let user_money = balances_update(&self.user_money, calling_user, funds + price);
        let markets = markets_update(&self.markets, market_id, traded);
        let e = Economy { next_market_id: self.next_market_id, user_money, markets };
        proof {
            lemma_markets_view_update(self.markets, markets, market_id, traded);
            assert(e@.markets.dom() =~= self@.markets.dom());
        }
        Ok((e, UserShareBalance { kind: held.kind, quantity: ShareQuantity(shares) }, Money(price)))
    }

    /// Resolves market `market_id` to `outcome` on behalf of its creator, and
    /// returns the market as it stood. There is no neutral outcome: a market
    /// stays open until it is resolved to Yes or No. The losing kind's
    /// reserve is paid to nobody.
    pub fn resolve_market(&self, calling_user: UserId, market_id: MarketId, outcome: ShareKind) -> (r: Result<
        (Economy, Market),
        MarketError,
    >)
        requires
            self.wf(),
        ensures
            match r {
                Ok((e, m)) => self@.resolve_market(calling_user, market_id, outcome) == Ok::<
                    (EconomyModel, MarketModel),
                    MarketError,
                >((e@, m@)) && e.wf(),
                Err(x) => self@.resolve_market(calling_user, market_id, outcome) == Err::<
                    (EconomyModel, MarketModel),
                    MarketError,
                >(x),
            },
    {
        let (market, markets) = match markets_extract(&self.markets, market_id) {
            Some(found) => found,
            None => return Err(MarketError::NotFound),
        };
        let ghost m = market@;
        let ghost balances = self@.balances;
        proof {
            assert(self@.markets.contains_key(market_id));
            assert(m == self@.markets[market_id]);
        }
        if calling_user != market.creator {
            return Err(MarketError::Unauthorized);
        }
        let holders = positions_keys(&market.num_user_shares);
        let mut user_money = balances_update(&self.user_money, calling_user, lookup_balance(&self.user_money, calling_user));
        proof {
            assert(balance_entries(user_money) =~= paid_winners(balances, m, outcome, holders@.subrange(0, 0)).insert(
                calling_user,
                balance_in(balances, calling_user),
            ));
        }
        let mut i: usize = 0;
        while i < holders.len()
            invariant
                i <= holders@.len(),
                m == market@,
                balances == self@.balances,
                self@.markets.contains_key(market_id),
                self@.markets[market_id] == m,
                balance_entries(user_money).dom().finite(),
                calling_user == m.creator,
                forall|k: u64| m.positions.contains_key(k) <==> holders@.contains(k),
                forall|a: int, b: int| 0 <= a < b < holders@.len() ==> holders@[a] < holders@[b],
                balance_entries(user_money) == paid_winners(balances, m, outcome, holders@.subrange(0, i as int)).insert(
                    calling_user,
                    balance_in(paid_winners(balances, m, outcome, holders@.subrange(0, i as int)), calling_user),
                ),
                forall|u: UserId|
                    holders@.subrange(0, i as int).contains(u) && holds_winning(m, outcome, u)
                        ==> balance_in(balances, u) + m.positions[u].quantity.0 <= u64::MAX,
            decreases holders@.len() - i,
        {
            let u = holders[i];
            let ghost done = holders@.subrange(0, i as int);
            let ghost next = holders@.subrange(0, i as int + 1);
            proof {
                assert(holders@.contains(u));
                assert(!done.contains(u)) by {
                    if done.contains(u) {
                        let j = choose|j: int| 0 <= j < done.len() && done[j] == u;
                        assert(holders@[j] == u);
                    }
                }
                assert(next =~= done.push(u));
                assert forall|v: UserId| #[trigger] next.contains(v) <==> done.contains(v) || v == u by {
                    if next.contains(v) && v != u {
                        let j = choose|j: int| 0 <= j < next.len() && next[j] == v;
                        assert(done[j] == v);
                    }
                    if done.contains(v) {
                        let j = choose|j: int| 0 <= j < done.len() && done[j] == v;
                        assert(next[j] == v);
                    }
                    if v == u {
                        assert(next[i as int] == u);
                    }
                }
            }
            let position = positions_get(&market.num_user_shares, u).unwrap();
            if position.kind == outcome {
                let current = lookup_balance(&user_money, u);
                proof {
                    assert(current == balance_in(balances, u));
                }
                if current > u64::MAX - position.quantity.0 {
                    proof {
                        assert(is_credited(m, outcome, u));
                        assert(balance_in(balances, u) + settlement(m, outcome, u) > u64::MAX);
                    }
                    return Err(MarketError::Overflow);
                }
                user_money = balances_update(&user_money, u, current + position.quantity.0);
            }
            proof {
                assert(paid_winners(balances, m, outcome, next) =~= if holds_winning(m, outcome, u) {
                    paid_winners(balances, m, outcome, done).insert(
                        u,
                        (balance_in(balances, u) + m.positions[u].quantity.0) as u64,
                    )
                } else {
                    paid_winners(balances, m, outcome, done)
                });
                assert(balance_entries(user_money) =~= paid_winners(balances, m, outcome, next).insert(
                    calling_user,
                    balance_in(paid_winners(balances, m, outcome, next), calling_user),
                ));
            }
            i += 1;
        }
        let reserve = match outcome {
            ShareKind::Yes => market.y.0,
            ShareKind::No => market.n.0,
        };
        let current = lookup_balance(&user_money, calling_user);
        proof {
            assert(holders@.subrange(0, holders@.len() as int) =~= holders@);
            assert(current == balance_in(balances, calling_user) + if holds_winning(m, outcome, calling_user) {
                m.positions[calling_user].quantity.0 as int
            } else {
                0
            });
        }
        if current > u64::MAX - reserve {
            proof {
                assert(is_credited(m, outcome, calling_user));
                assert(balance_in(balances, calling_user) + settlement(m, outcome, calling_user) > u64::MAX);
            }
            return Err(MarketError::Overflow);
        }
        let user_money = balances_update(&user_money, calling_user, current + reserve);
        let e = Economy { next_market_id: self.next_market_id, user_money, markets };
        proof {
            assert forall|u: UserId| is_credited(m, outcome, u) implies balance_in(balances, u) + #[trigger] settlement(
                m,
                outcome,
                u,
            ) <= u64::MAX by {
                if u != calling_user {
                    assert(holders@.contains(u));
                }
            }
            assert(balance_entries(user_money) =~= settled_balances(balances, m, outcome));
            lemma_markets_view_without(self.markets, markets, market_id);
            assert(e@.markets.dom() =~= self@.markets.dom().remove(market_id));
        }
        Ok((e, market))
    }

    /// Sells `sell_amount` shares (all that are held when `None`) in market
    /// `market_id`, now. Returns what was sold and what it paid.
    pub fn sell(&self, calling_user: UserId, market_id: MarketId, sell_amount: Option<ShareQuantity>) -> (r: Result<
        (Economy, UserShareBalance, Money),
        MarketError,
    >)
        requires
            self.wf(),
        ensures
            exists|now: i64|
                sale_result(r) == #[trigger] self@.sell(
                    calling_user,
                    market_id,
                    quantity_view(sell_amount),
                    now,
                ),
            r matches Ok((e, _, _)) ==> e.wf(),
    {
        let now = now_timestamp();
        self.sell_at(calling_user, market_id, sell_amount, now)
    }

    /// Every balance on record, the largest first (the smaller user id first
    /// among equal balances).
    pub fn balances(&self) -> (r: Vec<(UserId, Money)>)
        requires
            self.wf(),
        ensures
            forall|i: int|
                0 <= i < r@.len() ==> self@.balances.contains_key(#[trigger] r@[i].0)
                    && r@[i].1.0 == self@.balances[r@[i].0],
            forall|u: UserId|
                self@.balances.contains_key(u) ==> exists|i: int|
                    0 <= i < r@.len() && #[trigger] r@[i].0 == u,
            forall|i: int, j: int| 0 <= i < j < r@.len() ==> ranks_before(r@[i], r@[j]),
    {
        let users = balances_keys(&self.user_money);
        let mut entries: Vec<(UserId, Money)> = Vec::new();
        let mut i: usize = 0;
        while i < users.len()
            invariant
                i <= users@.len(),
                entries@.len() == i,
                forall|k: u64| self@.balances.contains_key(k) <==> users@.contains(k),
                forall|a: int, b: int| 0 <= a < b < users@.len() ==> users@[a] < users@[b],
                forall|a: int|
                    0 <= a < i ==> (#[trigger] entries@[a]).0 == users@[a] && entries@[a].1.0
                        == self@.balances[users@[a]],
            decreases users@.len() - i,
        {
            let u = users[i];
            proof {
                assert(users@.contains(u));
            }
            entries.push((u, Money(lookup_balance(&self.user_money, u))));
            i += 1;
        }
        let r = rank_balances(&entries);
        proof {
            assert forall|a: int| 0 <= a < r@.len() implies self@.balances.contains_key(
                #[trigger] r@[a].0,
            ) && r@[a].1.0 == self@.balances[r@[a].0] by {
                assert(r@.contains(r@[a]));
                let j = choose|j: int| 0 <= j < entries@.len() && entries@[j] == r@[a];
                assert(users@.contains(users@[j]));
            }
            assert forall|u: UserId| self@.balances.contains_key(u) implies exists|a: int|
                0 <= a < r@.len() && #[trigger] r@[a].0 == u by {
                assert(users@.contains(u));
                let j = choose|j: int| 0 <= j < users@.len() && users@[j] == u;
                assert(entries@.contains(entries@[j]));
                assert(r@.contains(entries@[j]));
                let a = choose|a: int| 0 <= a < r@.len() && r@[a] == entries@[j];
                assert(r@[a].0 == u);
            }
        }
        r
    }

    /// The live markets, by increasing id.
    pub fn list_markets(&self) -> (r: Vec<&Market>)
        requires
            self.wf(),
        ensures
            forall|i: int|
                0 <= i < r@.len() ==> self@.markets.contains_key(#[trigger] r@[i].id)
                    && r@[i]@ == self@.markets[r@[i].id],
            forall|id: MarketId|
                self@.markets.contains_key(id) ==> exists|i: int|
                    0 <= i < r@.len() && #[trigger] r@[i].id == id,
            forall|i: int, j: int| 0 <= i < j < r@.len() ==> r@[i].id < r@[j].id,
    {
        let ids = markets_keys(&self.markets);
        let mut r: Vec<&Market> = Vec::new();
        let mut i: usize = 0;
        while i < ids.len()
            invariant
                i <= ids@.len(),
                r@.len() == i,
                self.wf(),
                forall|k: u64| self@.markets.contains_key(k) <==> ids@.contains(k),
                forall|a: int, b: int| 0 <= a < b < ids@.len() ==> ids@[a] < ids@[b],
                forall|a: int|
                    0 <= a < i ==> (#[trigger] r@[a]).id == ids@[a] && r@[a]@ == self@.markets[ids@[a]],
            decreases ids@.len() - i,
        {
            let id = ids[i];
            proof {
                assert(ids@.contains(id));
            }
            let m = markets_get(&self.markets, id).unwrap();
            r.push(m);
            i += 1;
        }
        proof {
            assert forall|a: int| 0 <= a < r@.len() implies self@.markets.contains_key(#[trigger] r@[a].id)
                && r@[a]@ == self@.markets[r@[a].id] by {
                assert(ids@.contains(ids@[a]));
            }
            assert forall|id: MarketId| self@.markets.contains_key(id) implies exists|a: int|
                0 <= a < r@.len() && #[trigger] r@[a].id == id by {
                assert(ids@.contains(id));
                let j = choose|j: int| 0 <= j < ids@.len() && ids@[j] == id;
                assert(r@[j].id == id);
            }
        }
        r
    }

    /// A user's cash, and their position in each market where they hold one.
    pub fn portfolio(&self, user: UserId) -> (r: Portfolio)
        requires
            self.wf(),
        ensures
            r.cash.0 == self@.balance(user),
            exists|ids: Seq<MarketId>| #[trigger] self@.lists_positions(user, ids, r.market_positions@),
    {
        let markets = self.list_markets();
        let mut positions: Vec<(String, UserShareBalance)> = Vec::new();
        let mut i: usize = 0;
        let ghost mut ids: Seq<MarketId> = Seq::empty();
        let ghost e = self@;
        while i < markets.len()
            invariant
                i <= markets@.len(),
                e == self@,
                forall|a: int|
                    0 <= a < markets@.len() ==> e.markets.contains_key(#[trigger] markets@[a].id)
                        && markets@[a]@ == e.markets[markets@[a].id],
                forall|a: int, b: int| 0 <= a < b < markets@.len() ==> markets@[a].id < markets@[b].id,
                forall|j: int, k: int| 0 <= j < k < ids.len() ==> ids[j] < ids[k],
                forall|id: MarketId|
                    ids.contains(id) <==> listed_before(markets@, i as int, id) && e.markets.contains_key(id)
                        && e.markets[id].positions.contains_key(user),
                forall|j: int, a: int|
                    0 <= j < ids.len() && i <= a < markets@.len() ==> #[trigger] ids[j] < #[trigger] markets@[a].id,
                positions@.len() == ids.len(),
                forall|j: int|
                    0 <= j < ids.len() ==> (#[trigger] positions@[j]).0@ == e.markets[ids[j]].question
                        && positions@[j].1 == e.markets[ids[j]].positions[user],
            decreases markets@.len() - i,
        {
            let m = markets[i];
            proof {
                assert forall|id: MarketId|
                    listed_before(markets@, i + 1, id) <==> listed_before(markets@, i as int, id) || id == m.id by {
                    if listed_before(markets@, i + 1, id) {
                        let a = choose|a: int| 0 <= a < i + 1 && #[trigger] markets@[a].id == id;
                        if a < i {
                            assert(listed_before(markets@, i as int, id));
                        }
                    }
                    if listed_before(markets@, i as int, id) {
                        let a = choose|a: int| 0 <= a < i && #[trigger] markets@[a].id == id;
                        assert(listed_before(markets@, i + 1, id));
                    }
                    if id == m.id {
                        assert(markets@[i as int].id == id);
                        assert(listed_before(markets@, i + 1, id));
                    }
                }
            }
            match positions_get(&m.num_user_shares, user) {
                Some(held) => {
                    proof {
                        assert(forall|j: int| 0 <= j < ids.len() ==> ids[j] < markets@[i as int].id);
                        let old_ids = ids;
                        ids = ids.push(m.id);
                        assert forall|id: MarketId| ids.contains(id) <==> old_ids.contains(id) || id == m.id by {
                            if ids.contains(id) {
                                let j = choose|j: int| 0 <= j < ids.len() && ids[j] == id;
                                if j < old_ids.len() {
                                    assert(old_ids[j] == id);
                                }
                            }
                            if old_ids.contains(id) {
                                let j = choose|j: int| 0 <= j < old_ids.len() && old_ids[j] == id;
                                assert(ids[j] == id);
                            }
                            if id == m.id {
                                assert(ids[old_ids.len() as int] == id);
                            }
                        }
                    }
                    positions.push((m.question.clone(), held));
                },
                None => {},
            }
            i += 1;
        }
        proof {
            assert forall|id: MarketId|
                ids.contains(id) <==> e.markets.contains_key(id) && e.markets[id].positions.contains_key(user) by {
                if e.markets.contains_key(id) {
                    let a = choose|a: int| 0 <= a < markets@.len() && #[trigger] markets@[a].id == id;
                    assert(listed_before(markets@, markets@.len() as int, id));
                }
            }
            assert(e.lists_positions(user, ids, positions@));
        }
        let r = Portfolio { cash: self.balance(user), market_positions: positions };
        proof {
            assert(self@.lists_positions(user, ids, r.market_positions@));
        }
        r
    }

    /// The economy as plain values: balances by increasing user id, markets
    /// by increasing id, positions by increasing user id.
    pub fn to_snapshot(&self) -> (r: Snapshot)
        requires
            self.wf(),
        ensures
            r.valid(),
            r@ == self@,
    {
        let e = Ghost(self@);
        let users = balances_keys(&self.user_money);
        let mut balances: Vec<(UserId, Money)> = Vec::new();
        let mut i: usize = 0;
        while i < users.len()
            invariant
                i <= users@.len(),
                e@ == self@,
                forall|k: u64| e@.balances.contains_key(k) <==> users@.contains(k),
                balances_map(balances@) == Map::new(
                    |u: UserId| users@.subrange(0, i as int).contains(u),
                    |u: UserId| e@.balances[u],
                ),
            decreases users@.len() - i,
        {
            let u = users[i];
            proof {
                assert(users@.contains(u));
                lemma_prefix_contains(users@, i as int);
            }
            let ghost before = balances@;
            balances.push((u, Money(lookup_balance(&self.user_money, u))));
            proof {
                assert(balances@.drop_last() =~= before);
                assert(balances_map(balances@) =~= Map::new(
                    |v: UserId| users@.subrange(0, i + 1).contains(v),
                    |v: UserId| e@.balances[v],
                ));
            }
            i += 1;
        }
        proof {
            assert(users@.subrange(0, users@.len() as int) =~= users@);
            assert(balances_map(balances@) =~= e@.balances);
        }
        let ids = markets_keys(&self.markets);
        let mut markets: Vec<MarketRecord> = Vec::new();
        let mut j: usize = 0;
        while j < ids.len()
            invariant
                j <= ids@.len(),
                e@ == self@,
                e@.wf(),
                forall|k: u64| e@.markets.contains_key(k) <==> ids@.contains(k),
                markets_map(markets@) == Map::new(
                    |k: MarketId| ids@.subrange(0, j as int).contains(k),
                    |k: MarketId| e@.markets[k],
                ),
                forall|a: int|
                    0 <= a < markets@.len() ==> (#[trigger] markets@[a]).valid(e@.next_market_id),
            decreases ids@.len() - j,
        {
            let id = ids[j];
            proof {
                assert(ids@.contains(id));
                lemma_prefix_contains(ids@, j as int);
            }
            let m = markets_get(&self.markets, id).unwrap();
            proof {
                assert(m@ == e@.markets[id]);
            }
            let record = market_record(m);
            let ghost before = markets@;
            markets.push(record);
            proof {
                assert(markets@.drop_last() =~= before);
                assert(markets_map(markets@) =~= Map::new(
                    |k: MarketId| ids@.subrange(0, j + 1).contains(k),
                    |k: MarketId| e@.markets[k],
                ));
            }
            j += 1;
        }
        proof {
            assert(ids@.subrange(0, ids@.len() as int) =~= ids@);
            assert(markets_map(markets@) =~= e@.markets);
        }
        Snapshot { next_market_id: self.next_market_id, balances, markets }
    }

    /// The economy that a snapshot describes; `None` when a market record is
    /// not valid. A later entry for the same user or id replaces an earlier
    /// one.
    pub fn from_snapshot(s: &Snapshot) -> (r: Option<Economy>)
        ensures
            r.is_some() == s.valid(),
            r matches Some(e) ==> e@ == s@ && e.wf(),
    {
        let mut j: usize = 0;
        while j < s.markets.len()
            invariant
                j <= s.markets@.len(),
                forall|a: int| 0 <= a < j ==> (#[trigger] s.markets@[a]).valid(s.next_market_id),
            decreases s.markets@.len() - j,
        {
            if !record_valid(&s.markets[j], s.next_market_id) {
                return None;
            }
            j += 1;
        }
        let mut user_money = balances_empty();
        proof {
            assert(balance_entries(user_money) =~= balances_map(s.balances@.subrange(0, 0)));
        }
        let mut i: usize = 0;
        while i < s.balances.len()
            invariant
                i <= s.balances@.len(),
                balance_entries(user_money) == balances_map(s.balances@.subrange(0, i as int)),
            decreases s.balances@.len() - i,
        {
            let (u, b) = s.balances[i];
            user_money = balances_update(&user_money, u, b.0);
            proof {
                assert(s.balances@.subrange(0, i + 1).drop_last() =~= s.balances@.subrange(0, i as int));
            }
            i += 1;
        }
        let mut markets = markets_empty();
        proof {
            assert(s.balances@.subrange(0, s.balances@.len() as int) =~= s.balances@);
            assert(markets_view(markets) =~= markets_map(s.markets@.subrange(0, 0)));
        }
        let mut k: usize = 0;
        while k < s.markets.len()
            invariant
                k <= s.markets@.len(),
                markets_view(markets) == markets_map(s.markets@.subrange(0, k as int)),
            decreases s.markets@.len() - k,
        {
            let m = market_from_record(&s.markets[k]);
            let id = m.id;
            let updated = markets_update(&markets, id, m);
            proof {
                lemma_markets_view_update(markets, updated, id, m);
                assert(s.markets@.subrange(0, k + 1).drop_last() =~= s.markets@.subrange(0, k as int));
            }
            markets = updated;
            k += 1;
        }
        proof {
            assert(s.markets@.subrange(0, s.markets@.len() as int) =~= s.markets@);
            lemma_valid_snapshot_well_formed(*s);
        }
        Some(Economy { next_market_id: s.next_market_id, user_money, markets })
    }

    /// Sends `amount` from `calling_user` to `user_to_tip`.
    pub fn tip(&self, calling_user: UserId, user_to_tip: UserId, amount: Money) -> (r: Result<
        Economy,
        MarketError,
    >)
        requires
            self.wf(),
        ensures
            match r {
                Ok(e) => self@.tip(calling_user, user_to_tip, amount.0) == Ok::<
                    EconomyModel,
                    MarketError,
                >(e@) && e.wf(),
                Err(x) => self@.tip(calling_user, user_to_tip, amount.0) == Err::<
                    EconomyModel,
                    MarketError,
                >(x),
            },
    {
        if amount.0 == 0 {
            return Err(MarketError::InvalidAmount);
        }
        let funds = self.balance(calling_user).0;
        if funds < amount.0 {
            return Err(MarketError::InsufficientFunds);
        }
        let debited = balances_update(&self.user_money, calling_user, funds - amount.0);
        let target = lookup_balance(&debited, user_to_tip);
        if target > u64::MAX - amount.0 {
            return Err(MarketError::Overflow);
        }
        let user_money = balances_update(&debited, user_to_tip, target + amount.0);
        let e = Economy {
            next_market_id: self.next_market_id,
            user_money,
            markets: markets_clone(&self.markets),
        };
        Ok(e)
    }
}

} // verus!
