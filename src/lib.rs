pub mod money;
pub mod prediction_market;
pub mod pricing;
pub mod share_quantity;
pub mod snapshot;
pub mod tables;
