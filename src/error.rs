use vstd::prelude::*;

use crate::asset::AssetClass;

verus! {

/// What can go wrong when money is moved or an allocation is set.
#[derive(Clone, Copy, Debug, PartialEq, Eq, Structural)]
pub enum PortfolioError {
    /// A withdrawal asked for more than the class holds.
    InsufficientFunds { class: AssetClass, available: i64, requested: i64 },
    /// The account has no entry for the class.
    ClassNotFound { class: AssetClass },
    /// A target allocation whose percentages do not add up to 100.00.
    InvalidAllocation { total: i64 },
}

} // verus!
