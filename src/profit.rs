//! Profit of a routed quote, measured in the reference asset.
use crate::amount::{
    checked_div, less_or_equal, parse_amount, parse_amount_spec, saturate, saturating_mul,
    saturating_sub, Amount,
};
use crate::types::RoutedOrder;
use vstd::prelude::*;

verus! {

/// The asset that priority fees are paid in (wrapped ether on Base).
pub const WETH_ADDRESS: &'static str = "0x4200000000000000000000000000000000000006";

pub open spec fn is_ascii_upper(c: char) -> bool {
    'A' <= c && c <= 'Z'
}

/// The characters are equal up to ASCII letter case.
pub open spec fn chars_match(a: char, b: char) -> bool {
    a == b || (is_ascii_upper(a) && a as u32 + 32 == b as u32) || (is_ascii_upper(b) && b as u32
        + 32 == a as u32)
}

/// The strings are equal up to ASCII letter case.
pub open spec fn same_ignoring_case(a: Seq<char>, b: Seq<char>) -> bool {
    a.len() == b.len() && forall|i: int| 0 <= i < a.len() ==> chars_match(#[trigger] a[i], b[i])
}

pub open spec fn is_reference_asset_spec(token: Seq<char>) -> bool {
    same_ignoring_case(token, WETH_ADDRESS@)
}

/// `token` names the reference asset, in any letter case.
pub fn is_reference_asset(token: &str) -> (r: bool)
    ensures
        r == is_reference_asset_spec(token@),
{
    let n = token.unicode_len();
    let m = WETH_ADDRESS.unicode_len();
    if n != m {
        return false;
    }
    let mut i: usize = 0;
    while i < n
        invariant
            n == token@.len(),
            m == WETH_ADDRESS@.len(),
            n == m,
            i <= n,
            forall|j: int| 0 <= j < i ==> chars_match(#[trigger] token@[j], WETH_ADDRESS@[j]),
        decreases n - i,
    {
        let a = token.get_char(i);
        let b = WETH_ADDRESS.get_char(i);
        let ok = a == b || ('A' <= a && a <= 'Z' && a as u32 + 32 == b as u32) || ('A' <= b && b
            <= 'Z' && b as u32 + 32 == a as u32);
        if !ok {
            return false;
        }
        i = i + 1;
    }
    true
}

/// Profit of a quote `q` over a required output `required`, in the reference asset.
/// Outside the reference asset the gas cost serves as the exchange rate:
/// `profit * (gas_use * gas_price) / gas_use_in_output_token`, products clamped.
pub open spec fn profit_spec(
    quote: Seq<char>,
    required: nat,
    token_out: Seq<char>,
    gas_use: Seq<char>,
    gas_price: Seq<char>,
    gas_use_quote: Seq<char>,
) -> Option<nat> {
    match parse_amount_spec(quote) {
        None => None,
        Some(q) => if q <= required {
            None
        } else if is_reference_asset_spec(token_out) {
            Some((q - required) as nat)
        } else {
            match (parse_amount_spec(gas_use), parse_amount_spec(gas_price), parse_amount_spec(gas_use_quote)) {
                (Some(g), Some(p), Some(d)) => if d == 0 {
                    None
                } else {
                    Some(saturate(((q - required) as nat) * saturate(g * p)) / d)
                },
                _ => None,
            }
        },
    }
}

/// The profit that `profit_spec` gives for a routed batch.
pub open spec fn profit_of(r: RoutedOrder) -> Option<nat> {
    profit_spec(
        r.route.quote@,
        r.request.amount_out_required.value(),
        r.request.token_out@,
        r.route.gas_use_estimate@,
        r.route.gas_price_wei@,
        r.route.gas_use_estimate_quote@,
    )
}

/// Profit of filling a routed batch, in the reference asset; `None` when the
/// quote does not beat the required output or a figure cannot be read.
pub fn get_profit_eth(routed: &RoutedOrder) -> (r: Option<Amount>)
    ensures
        r.is_some() == profit_of(*routed).is_some(),
        r.is_some() ==> r->0.value() == profit_of(*routed)->0,
{
    let quote = match parse_amount(routed.route.quote.as_str()) {
        Some(q) => q,
        None => return None,
    };
    let required = routed.request.amount_out_required;
    if less_or_equal(quote, required) {
        return None;
    }
    let profit_quote = saturating_sub(quote, required);
    if is_reference_asset(routed.request.token_out.as_str()) {
        return Some(profit_quote);
    }
    let gas_use = match parse_amount(routed.route.gas_use_estimate.as_str()) {
        Some(g) => g,
        None => return None,
    };
    let gas_price = match parse_amount(routed.route.gas_price_wei.as_str()) {
        Some(p) => p,
        None => return None,
    };
    let gas_use_eth = saturating_mul(gas_use, gas_price);
    let divisor = match parse_amount(routed.route.gas_use_estimate_quote.as_str()) {
        Some(d) => d,
        None => return None,
    };
    checked_div(saturating_mul(profit_quote, gas_use_eth), divisor)
}

} // verus!

verus! {

/// A profit exists only where the quote reads as an amount above the required
/// output; for the reference asset it is exactly the surplus; and it never
/// exceeds the largest amount.
pub proof fn lemma_profit_bounds(
    quote: Seq<char>,
    required: nat,
    token_out: Seq<char>,
    gas_use: Seq<char>,
    gas_price: Seq<char>,
    gas_use_quote: Seq<char>,
)
    ensures
        ({
            let p = profit_spec(quote, required, token_out, gas_use, gas_price, gas_use_quote);
            &&& p.is_some() ==> parse_amount_spec(quote).is_some() && parse_amount_spec(quote)->0 > required
            &&& p.is_some() ==> p->0 <= crate::amount::amount_max()
            &&& (parse_amount_spec(quote).is_some() && parse_amount_spec(quote)->0 > required
                && is_reference_asset_spec(token_out)) ==> p == Some(
                (parse_amount_spec(quote)->0 - required) as nat,
            )
        }),
{
    let p = profit_spec(quote, required, token_out, gas_use, gas_price, gas_use_quote);
    if p.is_some() && !is_reference_asset_spec(token_out) {
        let q = parse_amount_spec(quote)->0;
        let g = parse_amount_spec(gas_use)->0;
        let gp = parse_amount_spec(gas_price)->0;
        let d = parse_amount_spec(gas_use_quote)->0;
        let x = saturate(((q - required) as nat) * saturate(g * gp));
        assert(d > 0);
        assert(x / d <= x) by (nonlinear_arith)
            requires
                d > 0,
        ;
    }
}

} // verus!
