//! The persistent ordered maps that hold the economy's state.
//!
//! `im::OrdMap` is used as the crate provides it; each map type that the
//! economy uses has a name for what it holds and one wrapper per method called.
//! im copies a shared node by cloning its values; the values stored here are
//! integers, `Copy` records, or markets whose `Clone` is derived, so a copy
//! equals its original.
use vstd::prelude::*;
use im::ordmap::OrdMap;

use crate::prediction_market::{Market, UserShareBalance};

verus! {

#[verifier::external_type_specification]
#[verifier::external_body]
#[verifier::reject_recursive_types(K)]
#[verifier::reject_recursive_types(V)]
pub struct ExOrdMap<K, V>(OrdMap<K, V>);

/// Relies on im's `Clone` for `OrdMap`, which `Market`'s derived `Clone`
/// calls (and im calls when it copies a shared node); nothing is claimed of
/// the copy.
pub assume_specification<K, V>[ <OrdMap<K, V> as Clone>::clone ](m: &OrdMap<K, V>) -> OrdMap<
    K,
    V,
>;

/// What a map of balances holds, by user.
pub uninterp spec fn balance_entries(m: OrdMap<u64, u64>) -> Map<u64, u64>;

/// What a map of markets holds, by market id.
pub uninterp spec fn market_entries(m: OrdMap<u64, Market>) -> Map<u64, Market>;

/// What a map of positions holds, by user.
pub uninterp spec fn position_entries(m: OrdMap<u64, UserShareBalance>) -> Map<
    u64,
    UserShareBalance,
>;

/// Relies on im's `OrdMap::new`: an empty map.
#[verifier::external_body]
pub(crate) fn balances_empty() -> (r: OrdMap<u64, u64>)
    ensures
        balance_entries(r).dom().is_empty(),
{
    OrdMap::new()
}

/// Relies on im's `OrdMap::get`: the value stored under `k`, if any.
#[verifier::external_body]
pub(crate) fn balances_get(m: &OrdMap<u64, u64>, k: u64) -> (r: Option<u64>)
    ensures
        r == (if balance_entries(*m).contains_key(k) {
            Some(balance_entries(*m)[k])
        } else {
            None
        }),
{
    m.get(&k).copied()
}

/// Relies on im's `OrdMap::update`: a new map with `k` bound to `v`, the
/// others as they were.
#[verifier::external_body]
pub(crate) fn balances_update(m: &OrdMap<u64, u64>, k: u64, v: u64) -> (r: OrdMap<u64, u64>)
    ensures
        balance_entries(r) == balance_entries(*m).insert(k, v),
{
    m.update(k, v)
}

/// Relies on im's `OrdMap::keys`: every key once, in increasing order.
#[verifier::external_body]
pub(crate) fn balances_keys(m: &OrdMap<u64, u64>) -> (r: Vec<u64>)
    ensures
        forall|k: u64| balance_entries(*m).contains_key(k) <==> r@.contains(k),
        forall|i: int, j: int| 0 <= i < j < r@.len() ==> r@[i] < r@[j],
{
    m.keys().copied().collect()
}

/// Relies on im's `OrdMap::new`: an empty map.
#[verifier::external_body]
pub(crate) fn markets_empty() -> (r: OrdMap<u64, Market>)
    ensures
        market_entries(r).dom().is_empty(),
{
    OrdMap::new()
}

/// Relies on im's `OrdMap::get`: the value stored under `k`, if any.
#[verifier::external_body]
pub(crate) fn markets_get(m: &OrdMap<u64, Market>, k: u64) -> (r: Option<&Market>)
    ensures
        r.is_some() == market_entries(*m).contains_key(k),
        r.is_some() ==> *r.unwrap() == market_entries(*m)[k],
{
    m.get(&k)
}

/// Relies on im's `Clone` for `OrdMap`: a map with the same entries (the
/// copy shares the tree).
#[verifier::external_body]
pub(crate) fn markets_clone(m: &OrdMap<u64, Market>) -> (r: OrdMap<u64, Market>)
    ensures
        market_entries(r) == market_entries(*m),
{
    m.clone()
}

/// Relies on im's `OrdMap::update`: a new map with `k` bound to `v`, the
/// others as they were.
#[verifier::external_body]
pub(crate) fn markets_update(m: &OrdMap<u64, Market>, k: u64, v: Market) -> (r: OrdMap<
    u64,
    Market,
>)
    ensures
        market_entries(r) == market_entries(*m).insert(k, v),
{
    m.update(k, v)
}

/// Relies on im's `OrdMap::extract`: the value under `k` and a new map
/// without `k`, the others as they were; `None` when `k` is absent.
#[verifier::external_body]
pub(crate) fn markets_extract(m: &OrdMap<u64, Market>, k: u64) -> (r: Option<
    (Market, OrdMap<u64, Market>),
>)
    ensures
        r.is_some() == market_entries(*m).contains_key(k),
        r matches Some((v, rest)) ==> v == market_entries(*m)[k] && market_entries(rest)
            == market_entries(*m).remove(k),
{
    m.extract(&k)
}

/// Relies on im's `OrdMap::keys`: every key once, in increasing order.
#[verifier::external_body]
pub(crate) fn markets_keys(m: &OrdMap<u64, Market>) -> (r: Vec<u64>)
    ensures
        forall|k: u64| market_entries(*m).contains_key(k) <==> r@.contains(k),
        forall|i: int, j: int| 0 <= i < j < r@.len() ==> r@[i] < r@[j],
{
    m.keys().copied().collect()
}

/// Relies on im's `OrdMap::new`: an empty map.
#[verifier::external_body]
pub(crate) fn positions_empty() -> (r: OrdMap<u64, UserShareBalance>)
    ensures
        position_entries(r).dom().is_empty(),
{
    OrdMap::new()
}

/// Relies on im's `OrdMap::get`: the value stored under `k`, if any.
#[verifier::external_body]
pub(crate) fn positions_get(m: &OrdMap<u64, UserShareBalance>, k: u64) -> (r: Option<
    UserShareBalance,
>)
    ensures
        r == (if position_entries(*m).contains_key(k) {
            Some(position_entries(*m)[k])
        } else {
            None
        }),
{
    m.get(&k).copied()
}

/// Relies on im's `OrdMap::update`: a new map with `k` bound to `v`, the
/// others as they were.
#[verifier::external_body]
pub(crate) fn positions_update(
    m: &OrdMap<u64, UserShareBalance>,
    k: u64,
    v: UserShareBalance,
) -> (r: OrdMap<u64, UserShareBalance>)
    ensures
        position_entries(r) == position_entries(*m).insert(k, v),
{
    m.update(k, v)
}

/// Relies on im's `OrdMap::without`: a new map without `k`, the others as
/// they were.
#[verifier::external_body]
pub(crate) fn positions_without(m: &OrdMap<u64, UserShareBalance>, k: u64) -> (r: OrdMap<
    u64,
    UserShareBalance,
>)
    ensures
        position_entries(r) == position_entries(*m).remove(k),
{
    m.without(&k)
}

/// Relies on im's `OrdMap::keys`: every key once, in increasing order.
#[verifier::external_body]
pub(crate) fn positions_keys(m: &OrdMap<u64, UserShareBalance>) -> (r: Vec<u64>)
    ensures
        forall|k: u64| position_entries(*m).contains_key(k) <==> r@.contains(k),
        forall|i: int, j: int| 0 <= i < j < r@.len() ==> r@[i] < r@[j],
{
    m.keys().copied().collect()
}

} // verus!
