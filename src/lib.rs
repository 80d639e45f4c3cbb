//! Order lifecycle and fill decisions for priority-fee auction orders: a ledger of
//! open and done orders, hex decoding of signed orders, and the profit of a routed
//! quote in the reference asset.
pub mod amount;
pub mod codec;
pub mod types;
pub mod profit;
pub mod ledger;
