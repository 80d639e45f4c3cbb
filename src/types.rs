//! The values that flow between the event stream, the ledger and the router.
use crate::amount::Amount;
use vstd::prelude::*;

verus! {

/// An amount of one token.
#[derive(Debug)]
pub struct TokenAmount {
    pub token: String,
    pub amount: Amount,
}

/// An order's terms evaluated at one block timestamp.
#[derive(Debug)]
pub struct ResolvedOrder {
    pub input: TokenAmount,
    pub outputs: Vec<TokenAmount>,
}

/// What evaluating an order at a timestamp gives.
#[derive(Debug)]
pub enum OrderResolution {
    Expired,
    Invalid,
    Resolved(ResolvedOrder),
}

impl OrderResolution {
    /// A resolved order names at least one output.
    pub open spec fn wf(&self) -> bool {
        match self {
            OrderResolution::Resolved(r) => r.outputs@.len() > 0,
            _ => true,
        }
    }
}

/// An open order: its encoded bytes, hash, signature and latest resolved terms.
#[derive(Debug)]
pub struct PriorityOrderData {
    pub order: Vec<u8>,
    pub hash: String,
    pub signature: String,
    pub resolved: ResolvedOrder,
}

/// A unit handed to the router: here always one order.
#[derive(Debug)]
pub struct OrderBatchData {
    pub orders: Vec<PriorityOrderData>,
    pub amount_in: Amount,
    pub amount_out_required: Amount,
    pub token_in: String,
    pub token_out: String,
}

/// A route quote, with amounts as decimal text.
#[derive(Debug)]
pub struct Route {
    pub quote: String,
    pub gas_use_estimate: String,
    pub gas_price_wei: String,
    pub gas_use_estimate_quote: String,
}

/// A batch paired with the quote found for it.
#[derive(Debug)]
pub struct RoutedOrder {
    pub request: OrderBatchData,
    pub route: Route,
}

/// A new chain block.
#[derive(Debug, Clone, Copy, PartialEq, Eq)]
pub struct NewBlock {
    pub number: u64,
    pub timestamp: u64,
}

/// A new signed order, as it arrives.
#[derive(Debug)]
pub struct UniswapXOrder {
    pub encoded_order: String,
    pub signature: String,
    pub order_hash: String,
}

/// An order and its signature, ready to be filled.
#[derive(Debug)]
pub struct SignedOrder {
    pub order: Vec<u8>,
    pub sig: Vec<u8>,
}

/// How much of the profit to bid as priority fee.
#[derive(Debug, Clone, Copy, PartialEq, Eq)]
pub struct GasBidInfo {
    pub bid_percentage: u64,
    pub total_profit: Amount,
}

/// The decision to fill a routed batch: what to sign over and what to bid.
#[derive(Debug)]
pub struct FillAction {
    pub signed_orders: Vec<SignedOrder>,
    pub gas_bid_info: GasBidInfo,
}

} // verus!
