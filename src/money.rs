use vstd::prelude::*;

verus! {

/// Number of indivisible units in one coin of play money.
pub const UNITS_PER_COIN: u64 = 1_000_000;

/// An amount of play money, counted in millionths of a coin.
///
/// Amounts are unsigned, so no balance can ever be negative: every debit is
/// checked against the balance before it is made.
#[derive(Clone, Copy, Debug, PartialEq, Eq, Structural)]
pub struct Money(pub u64);

} // verus!
