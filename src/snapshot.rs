//! The economy as plain values, for storage outside the library.
use vstd::prelude::*;

use crate::money::Money;
use crate::prediction_market::{
    history_view, EconomyModel, MarketId, MarketModel, TransactionInfo, UserId, UserShareBalance,
};
use crate::share_quantity::ShareQuantity;

verus! {

/// A market as plain values; positions are listed by user.
#[derive(Clone, Debug)]
pub struct MarketRecord {
    pub id: MarketId,
    pub creator: UserId,
    pub question: String,
    pub description: String,
    pub y: ShareQuantity,
    pub n: ShareQuantity,
    pub positions: Vec<(UserId, UserShareBalance)>,
    pub close_timestamp: Option<i64>,
    pub transaction_history: Option<Vec<TransactionInfo>>,
}

/// The whole economy as plain values: balances listed by user, markets by id.
#[derive(Clone, Debug)]
pub struct Snapshot {
    pub next_market_id: MarketId,
    pub balances: Vec<(UserId, Money)>,
    pub markets: Vec<MarketRecord>,
}

/// The balances that a list gives; a later entry for a user replaces an
/// earlier one.
pub open spec fn balances_map(s: Seq<(UserId, Money)>) -> Map<UserId, u64>
    decreases s.len(),
{
    if s.len() == 0 {
        Map::empty()
    } else {
        balances_map(s.drop_last()).insert(s.last().0, s.last().1.0)
    }
}

/// The positions that a list gives; a later entry for a user replaces an
/// earlier one.
pub open spec fn positions_map(s: Seq<(UserId, UserShareBalance)>) -> Map<UserId, UserShareBalance>
    decreases s.len(),
{
    if s.len() == 0 {
        Map::empty()
    } else {
        positions_map(s.drop_last()).insert(s.last().0, s.last().1)
    }
}

impl View for MarketRecord {
    type V = MarketModel;

    open spec fn view(&self) -> MarketModel {
        MarketModel {
            id: self.id,
            creator: self.creator,
            question: self.question@,
            description: self.description@,
            y: self.y.0,
            n: self.n.0,
            positions: positions_map(self.positions@),
            close_timestamp: self.close_timestamp,
            history: history_view(self.transaction_history),
        }
    }
}

/// The markets that a list gives, by id; a later record for an id replaces
/// an earlier one.
pub open spec fn markets_map(s: Seq<MarketRecord>) -> Map<MarketId, MarketModel>
    decreases s.len(),
{
    if s.len() == 0 {
        Map::empty()
    } else {
        markets_map(s.drop_last()).insert(s.last().id, s.last()@)
    }
}

impl MarketRecord {
    /// Reserves positive, positions held in positive quantities, and an id
    /// below `next_market_id`.
    pub open spec fn valid(&self, next_market_id: MarketId) -> bool {
        &&& self.id < next_market_id
        &&& 0 < self.y.0
        &&& 0 < self.n.0
        &&& forall|i: int|
            0 <= i < self.positions@.len() ==> (#[trigger] self.positions@[i]).1.quantity.0 > 0
    }
}

impl View for Snapshot {
    type V = EconomyModel;

    open spec fn view(&self) -> EconomyModel {
        EconomyModel {
            next_market_id: self.next_market_id,
            balances: balances_map(self.balances@),
            markets: markets_map(self.markets@),
        }
    }
}

impl Snapshot {
    /// Every market record is valid.
    pub open spec fn valid(&self) -> bool {
        forall|i: int|
            0 <= i < self.markets@.len() ==> (#[trigger] self.markets@[i]).valid(self.next_market_id)
    }
}

proof fn lemma_balances_map_finite(s: Seq<(UserId, Money)>)
    ensures
        balances_map(s).dom().finite(),
    decreases s.len(),
{
    if s.len() > 0 {
        lemma_balances_map_finite(s.drop_last());
    }
}

proof fn lemma_positions_map_valid(s: Seq<(UserId, UserShareBalance)>)
    requires
        forall|i: int| 0 <= i < s.len() ==> (#[trigger] s[i]).1.quantity.0 > 0,
    ensures
        positions_map(s).dom().finite(),
        forall|u: UserId| #[trigger]
            positions_map(s).contains_key(u) ==> positions_map(s)[u].quantity.0 > 0,
    decreases s.len(),
{
    if s.len() > 0 {
        let t = s.drop_last();
        assert forall|i: int| 0 <= i < t.len() implies (#[trigger] t[i]).1.quantity.0 > 0 by {
            assert(t[i] == s[i]);
        }
        lemma_positions_map_valid(t);
        assert(s[s.len() - 1].1.quantity.0 > 0);
    }
}

proof fn lemma_markets_map_valid(s: Seq<MarketRecord>, next_market_id: MarketId)
    requires
        forall|i: int| 0 <= i < s.len() ==> (#[trigger] s[i]).valid(next_market_id),
    ensures
        markets_map(s).dom().finite(),
        forall|id: MarketId| #[trigger]
            markets_map(s).contains_key(id) ==> {
                &&& id < next_market_id
                &&& markets_map(s)[id].id == id
                &&& markets_map(s)[id].wf()
            },
    decreases s.len(),
{
    if s.len() > 0 {
        let t = s.drop_last();
        assert forall|i: int| 0 <= i < t.len() implies (#[trigger] t[i]).valid(next_market_id) by {
            assert(t[i] == s[i]);
        }
        lemma_markets_map_valid(t, next_market_id);
        let last = s[s.len() - 1];
        assert(last.valid(next_market_id));
        lemma_positions_map_valid(last.positions@);
    }
}

/// A valid snapshot describes a well-formed economy.
pub proof fn lemma_valid_snapshot_well_formed(s: Snapshot)
    requires
        s.valid(),
    ensures
        s@.wf(),
{
    lemma_balances_map_finite(s.balances@);
    lemma_markets_map_valid(s.markets@, s.next_market_id);
}

} // verus!
