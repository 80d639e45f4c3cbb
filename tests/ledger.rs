use uniswapx_priority::amount::Amount;
use uniswapx_priority::codec::decode_order;
use uniswapx_priority::ledger::{UniswapXPriorityFill, DONE_EXPIRY};
use uniswapx_priority::types::{OrderResolution, ResolvedOrder, TokenAmount};

const TOKEN_IN: &str = "0x1111111111111111111111111111111111111111";
const TOKEN_OUT: &str = "0x2222222222222222222222222222222222222222";

fn resolved(amount_in: u64, outs: &[u64]) -> OrderResolution {
    OrderResolution::Resolved(ResolvedOrder {
        input: TokenAmount { token: TOKEN_IN.to_string(), amount: Amount::from_u64(amount_in) },
        outputs: outs
            .iter()
            .map(|a| TokenAmount { token: TOKEN_OUT.to_string(), amount: Amount::from_u64(*a) })
            .collect(),
    })
}

fn ledger_at(ts: u64) -> UniswapXPriorityFill {
    let mut s = UniswapXPriorityFill::new(50);
    s.process_new_block_event(1, ts, &vec![]);
    s
}

fn submit(s: &mut UniswapXPriorityFill, hash: &str, res: OrderResolution) {
    let bytes = decode_order("0xdeadbeef").unwrap();
    s.update_order_state(res, bytes, "0x01".to_string(), hash.to_string());
}

#[test]
fn new_ledger_is_empty() {
    let s = UniswapXPriorityFill::new(50);
    assert_eq!(s.open_count(), 0);
    assert_eq!(s.done_count(), 0);
    assert_eq!(s.bid_percentage(), 50);
    assert_eq!(s.last_block_timestamp(), 0);
    assert!(!s.accepts_orders());
}

#[test]
fn order_opens_then_expires_on_later_block() {
    let mut s = ledger_at(1000);
    assert!(s.accepts_orders());
    submit(&mut s, "0xaa", resolved(10, &[5]));
    assert!(s.contains_open(&"0xaa".to_string()));
    s.process_new_block_event(2, 5000, &vec![]);
    let batches = s.finish_block(vec![OrderResolution::Expired]);
    assert!(batches.is_empty());
    assert!(!s.contains_open(&"0xaa".to_string()));
    assert_eq!(s.done_deadline_of(&"0xaa".to_string()), Some(5000 + DONE_EXPIRY));
}

#[test]
fn fill_log_moves_order_to_done() {
    let mut s = ledger_at(1000);
    submit(&mut s, "0xaa", resolved(10, &[5]));
    submit(&mut s, "0xbb", resolved(20, &[7]));
    s.process_new_block_event(2, 1012, &vec!["0xaa".to_string()]);
    assert!(!s.contains_open(&"0xaa".to_string()));
    assert_eq!(s.done_deadline_of(&"0xaa".to_string()), Some(1012 + 300));
    let batches = s.finish_block(vec![resolved(20, &[7])]);
    assert_eq!(batches.len(), 1);
    assert_eq!(batches[0].orders[0].hash, "0xbb");
}

#[test]
fn prune_drops_entries_past_deadline() {
    let mut s = ledger_at(1000);
    submit(&mut s, "0xaa", OrderResolution::Invalid);
    assert_eq!(s.done_deadline_of(&"0xaa".to_string()), Some(1300));
    s.process_new_block_event(2, 1299, &vec![]);
    s.finish_block(vec![]);
    assert_eq!(s.done_deadline_of(&"0xaa".to_string()), Some(1300));
    s.process_new_block_event(3, 1300, &vec![]);
    s.finish_block(vec![]);
    assert_eq!(s.done_deadline_of(&"0xaa".to_string()), Some(1300));
    s.process_new_block_event(4, 1301, &vec![]);
    s.finish_block(vec![]);
    assert_eq!(s.done_deadline_of(&"0xaa".to_string()), None);
    assert_eq!(s.done_count(), 0);
}

#[test]
fn filled_order_never_reopens() {
    let mut s = ledger_at(1000);
    submit(&mut s, "0xaa", resolved(10, &[5]));
    s.process_new_block_event(2, 1012, &vec!["0xaa".to_string()]);
    submit(&mut s, "0xaa", resolved(10, &[5]));
    assert!(!s.contains_open(&"0xaa".to_string()));
    assert_eq!(s.done_deadline_of(&"0xaa".to_string()), Some(1312));
    assert_eq!(s.open_count(), 0);
}

#[test]
fn resubmission_overwrites_open_terms() {
    let mut s = ledger_at(1000);
    submit(&mut s, "0xaa", resolved(10, &[5]));
    submit(&mut s, "0xaa", resolved(11, &[6, 4]));
    assert_eq!(s.open_count(), 1);
    let batches = s.get_order_batches();
    assert_eq!(batches[0].amount_in, Amount::from_u64(11));
    assert_eq!(batches[0].amount_out_required, Amount::from_u64(10));
}

#[test]
fn reresolve_twice_is_idempotent() {
    let mut s = ledger_at(1000);
    submit(&mut s, "0xaa", resolved(10, &[5]));
    submit(&mut s, "0xbb", resolved(20, &[7]));
    s.finish_block(vec![resolved(10, &[4]), OrderResolution::Expired]);
    let first = s.get_order_batches();
    let done_before = s.done_count();
    s.finish_block(vec![resolved(10, &[4])]);
    let second = s.get_order_batches();
    assert_eq!(first.len(), 1);
    assert_eq!(second.len(), 1);
    assert_eq!(first[0].orders[0].hash, second[0].orders[0].hash);
    assert_eq!(first[0].amount_out_required, second[0].amount_out_required);
    assert_eq!(s.done_count(), done_before);
    assert_eq!(s.done_deadline_of(&"0xbb".to_string()), Some(1300));
}

#[test]
fn hash_never_open_and_done() {
    let mut s = ledger_at(1000);
    submit(&mut s, "0xaa", resolved(10, &[5]));
    submit(&mut s, "0xbb", OrderResolution::Expired);
    submit(&mut s, "0xbb", resolved(10, &[5]));
    s.process_new_block_event(2, 1001, &vec!["0xaa".to_string(), "0xaa".to_string()]);
    for h in ["0xaa", "0xbb"] {
        let h = h.to_string();
        assert!(!(s.contains_open(&h) && s.done_deadline_of(&h).is_some()));
    }
    assert_eq!(s.done_count(), 2);
}

#[test]
fn snapshot_totals_saturate() {
    let mut s = ledger_at(1000);
    let max = Amount { limbs: [u64::MAX; 4] };
    let res = OrderResolution::Resolved(ResolvedOrder {
        input: TokenAmount { token: TOKEN_IN.to_string(), amount: Amount::from_u64(1) },
        outputs: vec![
            TokenAmount { token: TOKEN_OUT.to_string(), amount: max },
            TokenAmount { token: "0x33".to_string(), amount: Amount::from_u64(9) },
        ],
    });
    submit(&mut s, "0xaa", res);
    let batches = s.get_order_batches();
    assert_eq!(batches[0].amount_out_required, max);
    assert_eq!(batches[0].token_out, TOKEN_OUT);
    assert_eq!(batches[0].token_in, TOKEN_IN);
    assert_eq!(batches[0].orders[0].order, vec![0xde, 0xad, 0xbe, 0xef]);
}

#[test]
fn snapshot_sums_across_limbs() {
    let mut s = ledger_at(1000);
    submit(&mut s, "0xaa", resolved(1, &[u64::MAX, 1]));
    let batches = s.get_order_batches();
    assert_eq!(batches[0].amount_out_required, Amount { limbs: [0, 1, 0, 0] });
}

#[test]
fn expiry_keeps_other_open_terms() {
    let mut s = ledger_at(1000);
    submit(&mut s, "0xaa", resolved(10, &[5]));
    submit(&mut s, "0xbb", resolved(20, &[7, 3]));
    submit(&mut s, "0xaa", OrderResolution::Expired);
    submit(&mut s, "0xaa", OrderResolution::Expired);
    let batches = s.get_order_batches();
    assert_eq!(batches.len(), 1);
    assert_eq!(batches[0].orders[0].hash, "0xbb");
    assert_eq!(batches[0].amount_in, Amount::from_u64(20));
    assert_eq!(batches[0].amount_out_required, Amount::from_u64(10));
    assert_eq!(s.done_deadline_of(&"0xaa".to_string()), Some(1300));
}
