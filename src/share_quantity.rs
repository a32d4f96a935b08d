use vstd::prelude::*;

verus! {

/// A number of shares, counted in millionths of a share.
///
/// Kept apart from `Money` so that the two units are never confused, although
/// at settlement one share pays exactly one coin.
#[derive(Clone, Copy, Debug, PartialEq, Eq, Structural)]
pub struct ShareQuantity(pub u64);

} // verus!
