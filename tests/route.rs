use uniswapx_priority::amount::Amount;
use uniswapx_priority::codec::{decode_order, decode_signature, DecodeError};
use uniswapx_priority::ledger::{get_signed_orders, UniswapXPriorityFill};
use uniswapx_priority::profit::{get_profit_eth, is_reference_asset, WETH_ADDRESS};
use uniswapx_priority::types::{
    OrderBatchData, OrderResolution, PriorityOrderData, ResolvedOrder, Route, RoutedOrder,
    TokenAmount,
};

const MAX_DEC: &str =
    "115792089237316195423570985008687907853269984665640564039457584007913129639935";

fn order(hash: &str, sig: &str) -> PriorityOrderData {
    PriorityOrderData {
        order: vec![1, 2, 3],
        hash: hash.to_string(),
        signature: sig.to_string(),
        resolved: ResolvedOrder {
            input: TokenAmount { token: "0x11".to_string(), amount: Amount::from_u64(1) },
            outputs: vec![TokenAmount { token: WETH_ADDRESS.to_string(), amount: Amount::from_u64(80) }],
        },
    }
}

fn routed(quote: &str, required: Amount, token_out: &str, gas: [&str; 3], sig: &str) -> RoutedOrder {
    RoutedOrder {
        request: OrderBatchData {
            orders: vec![order("0xaa", sig)],
            amount_in: Amount::from_u64(1),
            amount_out_required: required,
            token_in: "0x11".to_string(),
            token_out: token_out.to_string(),
        },
        route: Route {
            quote: quote.to_string(),
            gas_use_estimate: gas[0].to_string(),
            gas_price_wei: gas[1].to_string(),
            gas_use_estimate_quote: gas[2].to_string(),
        },
    }
}

fn ledger() -> UniswapXPriorityFill {
    let mut s = UniswapXPriorityFill::new(50);
    s.process_new_block_event(1, 1000, &vec![]);
    s
}

#[test]
fn profitable_route_in_reference_asset() {
    let r = routed("100", Amount::from_u64(80), WETH_ADDRESS, ["1", "1", "1"], "0xabcd");
    assert_eq!(get_profit_eth(&r), Some(Amount::from_u64(20)));
    let s = ledger();
    let action = s.process_new_route(&r).unwrap();
    assert_eq!(action.gas_bid_info.total_profit, Amount::from_u64(20));
    assert_eq!(action.gas_bid_info.bid_percentage, 50);
    assert_eq!(action.signed_orders.len(), 1);
    assert_eq!(action.signed_orders[0].order, vec![1, 2, 3]);
    assert_eq!(action.signed_orders[0].sig, vec![0xab, 0xcd]);
}

#[test]
fn unprofitable_route_emits_nothing() {
    let r = routed("80", Amount::from_u64(100), WETH_ADDRESS, ["1", "1", "1"], "0xabcd");
    assert_eq!(get_profit_eth(&r), None);
    let s = ledger();
    assert!(s.process_new_route(&r).is_none());
    assert_eq!(s.open_count(), 0);
    assert_eq!(s.done_count(), 0);
}

#[test]
fn equal_quote_is_no_profit() {
    let r = routed("100", Amount::from_u64(100), WETH_ADDRESS, ["1", "1", "1"], "0x");
    assert_eq!(get_profit_eth(&r), None);
}

#[test]
fn reference_asset_ignores_letter_case() {
    let upper = "0X4200000000000000000000000000000000000006";
    assert!(is_reference_asset(upper));
    assert!(is_reference_asset(WETH_ADDRESS));
    assert!(!is_reference_asset("0x4200000000000000000000000000000000000007"));
    assert!(!is_reference_asset("0x42"));
    let r = routed("100", Amount::from_u64(80), upper, ["1", "1", "0"], "0x");
    assert_eq!(get_profit_eth(&r), Some(Amount::from_u64(20)));
}

#[test]
fn other_token_profit_converts_by_gas_ratio() {
    let r = routed("1000", Amount::from_u64(400), "0x33", ["10", "3", "20"], "0x");
    assert_eq!(get_profit_eth(&r), Some(Amount::from_u64(900)));
}

#[test]
fn conversion_truncates() {
    let r = routed("1000", Amount::from_u64(999), "0x33", ["1", "1", "3"], "0x");
    assert_eq!(get_profit_eth(&r), Some(Amount::from_u64(0)));
}

#[test]
fn zero_gas_quote_gives_none() {
    let r = routed("1000", Amount::from_u64(400), "0x33", ["10", "3", "0"], "0x");
    assert_eq!(get_profit_eth(&r), None);
}

#[test]
fn unreadable_figures_give_none() {
    let r = routed("1e3", Amount::from_u64(1), WETH_ADDRESS, ["1", "1", "1"], "0x");
    assert_eq!(get_profit_eth(&r), None);
    let r = routed("1000", Amount::from_u64(1), "0x33", ["-1", "1", "1"], "0x");
    assert_eq!(get_profit_eth(&r), None);
    let r = routed("1000", Amount::from_u64(1), "0x33", ["1", "x", "1"], "0x");
    assert_eq!(get_profit_eth(&r), None);
}

#[test]
fn profit_saturates_at_maximum() {
    let max = Amount { limbs: [u64::MAX; 4] };
    let r = routed(MAX_DEC, Amount::from_u64(0), "0x33", [MAX_DEC, MAX_DEC, "1"], "0x");
    assert_eq!(get_profit_eth(&r), Some(max));
    let r = routed(MAX_DEC, Amount::from_u64(0), WETH_ADDRESS, ["1", "1", "1"], "0x");
    assert_eq!(get_profit_eth(&r), Some(max));
}

#[test]
fn quote_beyond_256_bits_is_unreadable() {
    let too_big = "115792089237316195423570985008687907853269984665640564039457584007913129639936";
    let r = routed(too_big, Amount::from_u64(0), WETH_ADDRESS, ["1", "1", "1"], "0x");
    assert_eq!(get_profit_eth(&r), None);
}

#[test]
fn large_quote_parses_across_limbs() {
    let r = routed("18446744073709551616", Amount::from_u64(0), WETH_ADDRESS, ["1", "1", "1"], "0x");
    assert_eq!(get_profit_eth(&r), Some(Amount { limbs: [0, 1, 0, 0] }));
}

#[test]
fn stale_route_is_dropped() {
    let mut s = ledger();
    s.update_order_state(OrderResolution::Expired, vec![1, 2, 3], "0x".to_string(), "0xaa".to_string());
    let r = routed("100", Amount::from_u64(80), WETH_ADDRESS, ["1", "1", "1"], "0xabcd");
    assert!(s.process_new_route(&r).is_none());
}

#[test]
fn bad_signature_drops_route() {
    let r = routed("100", Amount::from_u64(80), WETH_ADDRESS, ["1", "1", "1"], "0xabc");
    assert!(ledger().process_new_route(&r).is_none());
    let orders = vec![order("0xaa", "0xzz")];
    assert!(get_signed_orders(&orders).is_err());
}

#[test]
fn decode_order_strips_prefix() {
    assert_eq!(decode_order("0xdeadBEEF"), Ok(vec![0xde, 0xad, 0xbe, 0xef]));
    assert_eq!(decode_order("0102"), Ok(vec![1, 2]));
    assert_eq!(decode_order(""), Ok(vec![]));
}

#[test]
fn decode_order_rejects_malformed_hex() {
    assert_eq!(decode_order("0xabc"), Err(DecodeError::InvalidHex));
    assert_eq!(decode_order("0xzz"), Err(DecodeError::InvalidHex));
    assert_eq!(decode_order("x0"), Err(DecodeError::InvalidHex));
}

#[test]
fn decode_order_strips_one_lower_case_prefix_only() {
    assert_eq!(decode_order("0Xab"), Err(DecodeError::InvalidHex));
    assert_eq!(decode_order("0x0xab"), Err(DecodeError::InvalidHex));
    assert_eq!(decode_order("0x0Xab"), Err(DecodeError::InvalidHex));
    assert_eq!(decode_order("0x"), Ok(vec![]));
    assert_eq!(decode_order("0x0a"), Ok(vec![0x0a]));
}

#[test]
fn decode_signature_reads_hex() {
    assert_eq!(decode_signature("0x0aff"), Some(vec![0x0a, 0xff]));
    assert_eq!(decode_signature("0aff"), Some(vec![0x0a, 0xff]));
    assert_eq!(decode_signature("0ag"), None);
}
