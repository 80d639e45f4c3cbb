//! The order ledger: open orders with their resolved terms, and done orders with
//! the time after which they may be forgotten.
use crate::amount::{saturate, saturating_add, Amount};
use crate::codec::{decode_signature, decode_signature_spec};
use crate::profit::{get_profit_eth, profit_of};
use crate::types::{
    FillAction, GasBidInfo, OrderBatchData, OrderResolution, PriorityOrderData, ResolvedOrder,
    RoutedOrder, SignedOrder, TokenAmount,
};
use vstd::prelude::*;

verus! {

/// Seconds a done order is remembered after it leaves the open set.
pub const DONE_EXPIRY: u64 = 300;

/// A done order and the timestamp after which it may be pruned.
#[derive(Debug)]
pub struct DoneEntry {
    pub hash: String,
    pub deadline: u64,
}

/// The prune deadline of an order that becomes done at `ts` (clamped at `u64::MAX`).
pub open spec fn done_deadline(ts: u64) -> u64 {
    if ts as int + DONE_EXPIRY as int > u64::MAX as int {
        u64::MAX
    } else {
        (ts + DONE_EXPIRY) as u64
    }
}

pub open spec fn open_has(s: Seq<PriorityOrderData>, h: Seq<char>) -> bool {
    exists|i: int| 0 <= i < s.len() && (#[trigger] s[i]).hash@ == h
}

pub open spec fn done_has(s: Seq<DoneEntry>, h: Seq<char>) -> bool {
    exists|i: int| 0 <= i < s.len() && (#[trigger] s[i]).hash@ == h
}

/// `h` is done in `s`, to be pruned after `d`.
pub open spec fn done_with_deadline(s: Seq<DoneEntry>, h: Seq<char>, d: u64) -> bool {
    exists|i: int| 0 <= i < s.len() && (#[trigger] s[i]).hash@ == h && s[i].deadline == d
}

pub open spec fn open_unique(s: Seq<PriorityOrderData>) -> bool {
    forall|i: int, j: int| 0 <= i < s.len() && 0 <= j < s.len() && i != j ==> (#[trigger] s[i]).hash@ != (#[trigger] s[j]).hash@
}

pub open spec fn done_unique(s: Seq<DoneEntry>) -> bool {
    forall|i: int, j: int| 0 <= i < s.len() && 0 <= j < s.len() && i != j ==> (#[trigger] s[i]).hash@ != (#[trigger] s[j]).hash@
}

pub open spec fn disjoint(o: Seq<PriorityOrderData>, d: Seq<DoneEntry>) -> bool {
    forall|i: int, j: int| 0 <= i < o.len() && 0 <= j < d.len() ==> (#[trigger] o[i]).hash@ != (#[trigger] d[j]).hash@
}

pub open spec fn outputs_present(s: Seq<PriorityOrderData>) -> bool {
    forall|i: int| 0 <= i < s.len() ==> (#[trigger] s[i]).resolved.outputs@.len() > 0
}

/// The open orders that stay open after re-resolution with `res` (one per order),
/// carrying their new terms, in their order.
pub open spec fn kept_open(open: Seq<PriorityOrderData>, res: Seq<OrderResolution>, n: nat) -> Seq<PriorityOrderData>
    decreases n,
{
    if n == 0 {
        Seq::empty()
    } else {
        let prev = kept_open(open, res, (n - 1) as nat);
        let o = open[n - 1];
        match res[n - 1] {
            OrderResolution::Resolved(r) => prev.push(
                PriorityOrderData { order: o.order, hash: o.hash, signature: o.signature, resolved: r },
            ),
            _ => prev,
        }
    }
}

/// The done entries that re-resolution with `res` adds, in order.
pub open spec fn retired(open: Seq<PriorityOrderData>, res: Seq<OrderResolution>, n: nat, deadline: u64) -> Seq<DoneEntry>
    decreases n,
{
    if n == 0 {
        Seq::empty()
    } else {
        let prev = retired(open, res, (n - 1) as nat, deadline);
        match res[n - 1] {
            OrderResolution::Resolved(_) => prev,
            _ => prev.push(DoneEntry { hash: open[n - 1].hash, deadline }),
        }
    }
}

/// The test that keeps a done entry when pruning at `ts`: its deadline is not yet past.
pub open spec fn prune_keeps(ts: u64) -> spec_fn(DoneEntry) -> bool {
    |e: DoneEntry| !(e.deadline < ts)
}

pub open spec fn all_wf(res: Seq<OrderResolution>) -> bool {
    forall|i: int| 0 <= i < res.len() ==> (#[trigger] res[i]).wf()
}

/// Total of the amounts, unclamped.
pub open spec fn sum_amounts(s: Seq<TokenAmount>) -> nat
    decreases s.len(),
{
    if s.len() == 0 {
        0
    } else {
        sum_amounts(s.drop_last()) + s.last().amount.value()
    }
}

/// `a` carries the same bytes, hash, signature and terms as `b`.
pub open spec fn same_order(a: PriorityOrderData, b: PriorityOrderData) -> bool {
    &&& a.order@ == b.order@
    &&& a.hash == b.hash
    &&& a.signature == b.signature
    &&& a.resolved.input == b.resolved.input
    &&& a.resolved.outputs@ == b.resolved.outputs@
}

/// `b` is the single-order batch of the open order `o`: its input, the clamped total
/// of its outputs, and its first output's token.
pub open spec fn batch_of(b: OrderBatchData, o: PriorityOrderData) -> bool {
    &&& b.orders@.len() == 1
    &&& same_order(b.orders@[0], o)
    &&& b.amount_in == o.resolved.input.amount
    &&& b.amount_out_required.value() == saturate(sum_amounts(o.resolved.outputs@))
    &&& b.token_in == o.resolved.input.token
    &&& b.token_out == o.resolved.outputs@[0].token
}

/// All signatures of `orders` are valid hex.
pub open spec fn signatures_decode(orders: Seq<PriorityOrderData>) -> bool {
    forall|i: int| 0 <= i < orders.len() ==> decode_signature_spec((#[trigger] orders[i]).signature@).is_some()
}

/// `signed` pairs each order's bytes with its decoded signature.
pub open spec fn signed_from(signed: Seq<SignedOrder>, orders: Seq<PriorityOrderData>) -> bool {
    &&& signed.len() == orders.len()
    &&& forall|i: int| 0 <= i < orders.len() ==> (#[trigger] signed[i]).order@ == orders[i].order@
        && signed[i].sig@ == decode_signature_spec(orders[i].signature@)->0
}

/// A signature that cannot be read at submission time.
#[derive(Debug, Clone, Copy, PartialEq, Eq)]
pub enum EncodingError {
    InvalidSignature,
}

fn copy_bytes(v: &Vec<u8>) -> (r: Vec<u8>)
    ensures
        r@ == v@,
{
    let mut r: Vec<u8> = Vec::new();
    let mut i: usize = 0;
    while i < v.len()
        invariant
            i <= v.len(),
            r@ == v@.take(i as int),
        decreases v.len() - i,
    {
        r.push(v[i]);
        i = i + 1;
        assert(r@ =~= v@.take(i as int));
    }
    assert(v@.take(i as int) =~= v@);
    r
}

fn copy_token_amount(t: &TokenAmount) -> (r: TokenAmount)
    ensures
        r == *t,
{
    TokenAmount { token: t.token.clone(), amount: t.amount }
}

fn copy_outputs(v: &Vec<TokenAmount>) -> (r: Vec<TokenAmount>)
    ensures
        r@ == v@,
{
    let mut r: Vec<TokenAmount> = Vec::new();
    let mut i: usize = 0;
    while i < v.len()
        invariant
            i <= v.len(),
            r@ == v@.take(i as int),
        decreases v.len() - i,
    {
        r.push(copy_token_amount(&v[i]));
        i = i + 1;
        assert(r@ =~= v@.take(i as int));
    }
    assert(v@.take(i as int) =~= v@);
    r
}

fn copy_order(o: &PriorityOrderData) -> (r: PriorityOrderData)
    ensures
        same_order(r, *o),
{
    PriorityOrderData {
        order: copy_bytes(&o.order),
        hash: o.hash.clone(),
        signature: o.signature.clone(),
        resolved: ResolvedOrder {
            input: copy_token_amount(&o.resolved.input),
            outputs: copy_outputs(&o.resolved.outputs),
        },
    }
}

/// The total of the outputs' amounts, clamped at the largest amount.
pub fn total_output(outputs: &Vec<TokenAmount>) -> (r: Amount)
    ensures
        r.value() == saturate(sum_amounts(outputs@)),
{
    let mut acc = Amount::zero();
    let mut i: usize = 0;
    while i < outputs.len()
        invariant
            i <= outputs.len(),
            acc.value() == saturate(sum_amounts(outputs@.take(i as int))),
        decreases outputs.len() - i,
    {
        acc = saturating_add(acc, outputs[i].amount);
        assert(outputs@.take(i + 1).drop_last() =~= outputs@.take(i as int));
        i = i + 1;
    }
    assert(outputs@.take(i as int) =~= outputs@);
    acc
}

/// Pairs each order's bytes with its signature's bytes; fails when a signature is
/// not valid hex.
pub fn get_signed_orders(orders: &Vec<PriorityOrderData>) -> (r: Result<Vec<SignedOrder>, EncodingError>)
    ensures
        r.is_ok() == signatures_decode(orders@),
        r.is_ok() ==> signed_from(r->Ok_0@, orders@),
{
    let mut signed: Vec<SignedOrder> = Vec::new();
    let mut i: usize = 0;
    while i < orders.len()
        invariant
            i <= orders.len(),
            signed_from(signed@, orders@.take(i as int)),
            signatures_decode(orders@.take(i as int)),
        decreases orders.len() - i,
    {
        let sig = match decode_signature(orders[i].signature.as_str()) {
            Some(b) => b,
            None => {
                assert(!signatures_decode(orders@)) by {
                    assert(decode_signature_spec(orders@[i as int].signature@).is_none());
                }
                return Err(EncodingError::InvalidSignature);
            },
        };
        signed.push(SignedOrder { order: copy_bytes(&orders[i].order), sig });
        i = i + 1;
        assert forall|j: int| 0 <= j < i implies decode_signature_spec((#[trigger] orders@.take(i as int)[j]).signature@).is_some() by {
            if j < i - 1 {
                assert(orders@.take(i as int)[j] == orders@.take(i - 1)[j]);
            }
        }
        assert forall|j: int| 0 <= j < i implies (#[trigger] signed@[j]).order@ == orders@.take(i as int)[j].order@
            && signed@[j].sig@ == decode_signature_spec(orders@.take(i as int)[j].signature@)->0 by {
            if j < i - 1 {
                assert(orders@.take(i as int)[j] == orders@.take(i - 1)[j]);
            }
        }
    }
    assert(orders@.take(i as int) =~= orders@);
    Ok(signed)
}

/// Order-lifecycle state of the priority-order filler.
#[derive(Debug)]
pub struct UniswapXPriorityFill {
    bid_percentage: u64,
    last_block_number: u64,
    last_block_timestamp: u64,
    open_orders: Vec<PriorityOrderData>,
    done_orders: Vec<DoneEntry>,
}

impl UniswapXPriorityFill {
    /// The open orders, in the order they were first opened.
    pub closed spec fn open_view(&self) -> Seq<PriorityOrderData> {
        self.open_orders@
    }

    /// The done entries.
    pub closed spec fn done_view(&self) -> Seq<DoneEntry> {
        self.done_orders@
    }

    pub closed spec fn timestamp(&self) -> u64 {
        self.last_block_timestamp
    }

    pub closed spec fn block_number(&self) -> u64 {
        self.last_block_number
    }

    pub closed spec fn bid(&self) -> u64 {
        self.bid_percentage
    }

    pub open spec fn is_open(&self, h: Seq<char>) -> bool {
        open_has(self.open_view(), h)
    }

    pub open spec fn is_done(&self, h: Seq<char>) -> bool {
        done_has(self.done_view(), h)
    }

    /// Hashes are unique in each set, no hash is in both, and every open order
    /// names an output.
    pub open spec fn wf(&self) -> bool {
        &&& open_unique(self.open_view())
        &&& done_unique(self.done_view())
        &&& disjoint(self.open_view(), self.done_view())
        &&& outputs_present(self.open_view())
    }

    pub fn new(bid_percentage: u64) -> (r: Self)
        ensures
            r.wf(),
            r.open_view().len() == 0,
            r.done_view().len() == 0,
            r.timestamp() == 0,
            r.block_number() == 0,
            r.bid() == bid_percentage,
    {
        UniswapXPriorityFill {
            bid_percentage,
            last_block_number: 0,
            last_block_timestamp: 0,
            open_orders: Vec::new(),
            done_orders: Vec::new(),
        }
    }

    pub fn bid_percentage(&self) -> (r: u64)
        ensures
            r == self.bid(),
    {
        self.bid_percentage
    }

    pub fn last_block_timestamp(&self) -> (r: u64)
        ensures
            r == self.timestamp(),
    {
        self.last_block_timestamp
    }

    pub fn last_block_number(&self) -> (r: u64)
        ensures
            r == self.block_number(),
    {
        self.last_block_number
    }

    fn find_open(&self, h: &String) -> (r: Option<usize>)
        ensures
            r.is_none() ==> !self.is_open(h@),
            r.is_some() ==> r->0 < self.open_view().len() && self.open_view()[r->0 as int].hash@ == h@,
    {
        let mut i: usize = 0;
        while i < self.open_orders.len()
            invariant
                i <= self.open_orders.len(),
                forall|j: int| 0 <= j < i ==> (#[trigger] self.open_orders@[j]).hash@ != h@,
            decreases self.open_orders.len() - i,
        {
            if self.open_orders[i].hash == *h {
                return Some(i);
            }
            i = i + 1;
        }
        None
    }

    fn find_done(&self, h: &String) -> (r: Option<usize>)
        ensures
            r.is_none() ==> !self.is_done(h@),
            r.is_some() ==> r->0 < self.done_view().len() && self.done_view()[r->0 as int].hash@ == h@,
    {
        let mut i: usize = 0;
        while i < self.done_orders.len()
            invariant
                i <= self.done_orders.len(),
                forall|j: int| 0 <= j < i ==> (#[trigger] self.done_orders@[j]).hash@ != h@,
            decreases self.done_orders.len() - i,
        {
            if self.done_orders[i].hash == *h {
                return Some(i);
            }
            i = i + 1;
        }
        None
    }

    /// The hash is in the open set.
    pub fn contains_open(&self, h: &String) -> (r: bool)
        ensures
            r == self.is_open(h@),
    {
        self.find_open(h).is_some()
    }

    /// The deadline of a done hash, or `None` when the hash is not done.
    pub fn done_deadline_of(&self, h: &String) -> (r: Option<u64>)
        requires
            self.wf(),
        ensures
            r.is_none() == !self.is_done(h@),
            r.is_some() ==> done_with_deadline(self.done_view(), h@, r->0),
    {
        match self.find_done(h) {
            Some(k) => Some(self.done_orders[k].deadline),
            None => None,
        }
    }

    /// Number of open orders.
    pub fn open_count(&self) -> (r: usize)
        ensures
            r == self.open_view().len(),
    {
        self.open_orders.len()
    }

    /// Number of done entries.
    pub fn done_count(&self) -> (r: usize)
        ensures
            r == self.done_view().len(),
    {
        self.done_orders.len()
    }

    /// Moves `h` out of the open set and into the done set, with a deadline
    /// `DONE_EXPIRY` after the current block; a hash already done keeps its entry.
    pub fn mark_as_done(&mut self, h: &String)
        requires
            old(self).wf(),
        ensures
            final(self).wf(),
            final(self).timestamp() == old(self).timestamp(),
            final(self).block_number() == old(self).block_number(),
            final(self).bid() == old(self).bid(),
            !final(self).is_open(h@),
            old(self).is_open(h@) ==> exists|k: int|
                0 <= k < old(self).open_view().len() && (#[trigger] old(self).open_view()[k]).hash@ == h@
                    && final(self).open_view() == old(self).open_view().remove(k),
            !old(self).is_open(h@) ==> final(self).open_view() == old(self).open_view(),
            old(self).is_done(h@) ==> final(self).done_view() == old(self).done_view(),
            !old(self).is_done(h@) ==> final(self).done_view() == old(self).done_view().push(
                (DoneEntry { hash: *h, deadline: done_deadline(old(self).timestamp()) }),
            ),
            final(self).is_done(h@),
            !old(self).is_done(h@) ==> done_with_deadline(final(self).done_view(), h@, done_deadline(old(self).timestamp())),
            forall|g: Seq<char>| g != h@ ==> (final(self).is_open(g) == old(self).is_open(g)),
            forall|g: Seq<char>| g != h@ ==> (final(self).is_done(g) == old(self).is_done(g)),
            forall|g: Seq<char>, d: u64| done_with_deadline(old(self).done_view(), g, d) ==> done_with_deadline(final(self).done_view(), g, d),
    {
        let ghost o = self.open_orders@;
        let ghost dn = self.done_orders@;
        match self.find_open(h) {
            Some(k) => {
                self.open_orders.remove(k);
                assert forall|i: int| 0 <= i < self.open_orders@.len() implies (#[trigger] self.open_orders@[i]).hash@ != h@ by {
                    if i < k {
                        assert(self.open_orders@[i] == o[i]);
                    } else {
                        assert(self.open_orders@[i] == o[i + 1]);
                    }
                }
                assert forall|i: int, j: int| 0 <= i < self.open_orders@.len() && 0 <= j < self.open_orders@.len() && i != j
                    implies (#[trigger] self.open_orders@[i]).hash@ != (#[trigger] self.open_orders@[j]).hash@ by {
                    let ii = if i < k { i } else { i + 1 };
                    let jj = if j < k { j } else { j + 1 };
                    assert(self.open_orders@[i] == o[ii]);
                    assert(self.open_orders@[j] == o[jj]);
                }
                assert forall|i: int, j: int| 0 <= i < self.open_orders@.len() && 0 <= j < self.done_orders@.len()
                    implies (#[trigger] self.open_orders@[i]).hash@ != (#[trigger] self.done_orders@[j]).hash@ by {
                    let ii = if i < k { i } else { i + 1 };
                    assert(self.open_orders@[i] == o[ii]);
                }
                assert forall|i: int| 0 <= i < self.open_orders@.len() implies (#[trigger] self.open_orders@[i]).resolved.outputs@.len() > 0 by {
                    let ii = if i < k { i } else { i + 1 };
                    assert(self.open_orders@[i] == o[ii]);
                }
            },
            None => {},
        }
        if self.find_done(h).is_none() {
            let deadline = self.last_block_timestamp.saturating_add(DONE_EXPIRY);
            self.done_orders.push(DoneEntry { hash: h.clone(), deadline });
            let ghost n: int = self.done_orders@.len() - 1;
            assert(self.done_orders@[n].hash@ == h@);
            assert forall|i: int, j: int| 0 <= i < self.open_orders@.len() && 0 <= j < self.done_orders@.len()
                implies (#[trigger] self.open_orders@[i]).hash@ != (#[trigger] self.done_orders@[j]).hash@ by {
                if j == n {
                    assert(!open_has(self.open_orders@, h@));
                }
            }
            assert(done_with_deadline(self.done_orders@, h@, deadline));
        }
        assert forall|g: Seq<char>, d: u64| done_with_deadline(dn, g, d) implies done_with_deadline(self.done_orders@, g, d) by {
            let i = choose|i: int| 0 <= i < dn.len() && (#[trigger] dn[i]).hash@ == g && dn[i].deadline == d;
            assert(self.done_orders@[i] == dn[i]);
        }
        assert forall|g: Seq<char>| g != h@ implies (done_has(self.done_orders@, g) == done_has(dn, g)) by {
            if done_has(dn, g) {
                let i = choose|i: int| 0 <= i < dn.len() && (#[trigger] dn[i]).hash@ == g;
                assert(self.done_orders@[i] == dn[i]);
            }
            if done_has(self.done_orders@, g) {
                let i = choose|i: int| 0 <= i < self.done_orders@.len() && (#[trigger] self.done_orders@[i]).hash@ == g;
                if i < dn.len() {
                    assert(self.done_orders@[i] == dn[i]);
                }
            }
        }
        assert forall|g: Seq<char>| g != h@ implies (open_has(self.open_orders@, g) == open_has(o, g)) by {
            if open_has(o, g) {
                if open_has(o, h@) {
                    let k = choose|k: int| 0 <= k < o.len() && (#[trigger] o[k]).hash@ == h@ && self.open_orders@ == o.remove(k);
                    let i = choose|i: int| 0 <= i < o.len() && (#[trigger] o[i]).hash@ == g;
                    if i < k {
                        assert(self.open_orders@[i] == o[i]);
                    } else {
                        assert(self.open_orders@[i - 1] == o[i]);
                    }
                }
            }
            if open_has(self.open_orders@, g) {
                if open_has(o, h@) {
                    let k = choose|k: int| 0 <= k < o.len() && (#[trigger] o[k]).hash@ == h@ && self.open_orders@ == o.remove(k);
                    let i = choose|i: int| 0 <= i < self.open_orders@.len() && (#[trigger] self.open_orders@[i]).hash@ == g;
                    if i < k {
                        assert(self.open_orders@[i] == o[i]);
                    } else {
                        assert(self.open_orders@[i] == o[i + 1]);
                    }
                }
            }
        }
    }

    /// Records a new block as the reference point for resolution and deadlines.
    pub fn record_block(&mut self, number: u64, timestamp: u64)
        requires
            old(self).wf(),
        ensures
            final(self).wf(),
            final(self).block_number() == number,
            final(self).timestamp() == timestamp,
            final(self).bid() == old(self).bid(),
            final(self).open_view() == old(self).open_view(),
            final(self).done_view() == old(self).done_view(),
    {
        self.last_block_number = number;
        self.last_block_timestamp = timestamp;
    }

    /// Applies the fills seen on chain: each filled hash leaves the open set and
    /// is done, with a deadline `DONE_EXPIRY` after the current block unless it
    /// was done already. Other hashes keep their state.
    pub fn handle_fills(&mut self, filled: &Vec<String>)
        requires
            old(self).wf(),
        ensures
            final(self).wf(),
            final(self).timestamp() == old(self).timestamp(),
            final(self).block_number() == old(self).block_number(),
            final(self).bid() == old(self).bid(),
            forall|i: int| 0 <= i < filled@.len() ==> !final(self).is_open((#[trigger] filled@[i])@) && final(self).is_done(filled@[i]@),
            forall|i: int| 0 <= i < filled@.len() && !old(self).is_done((#[trigger] filled@[i])@)
                ==> done_with_deadline(final(self).done_view(), filled@[i]@, done_deadline(old(self).timestamp())),
            forall|g: Seq<char>| (forall|i: int| 0 <= i < filled@.len() ==> (#[trigger] filled@[i])@ != g) ==> (final(self).is_open(g) == old(self).is_open(g) && final(self).is_done(g) == old(self).is_done(g)),
            forall|g: Seq<char>, d: u64| done_with_deadline(old(self).done_view(), g, d) ==> done_with_deadline(final(self).done_view(), g, d),
            forall|j: int| 0 <= j < final(self).open_view().len() ==> old(self).open_view().contains(#[trigger] final(self).open_view()[j]),
    {
        let ghost s0 = *self;
        let mut i: usize = 0;
        while i < filled.len()
            invariant
                i <= filled.len(),
                self.wf(),
                self.timestamp() == s0.timestamp(),
                self.block_number() == s0.block_number(),
                self.bid() == s0.bid(),
                forall|j: int| 0 <= j < i ==> !self.is_open((#[trigger] filled@[j])@) && self.is_done(filled@[j]@),
                forall|j: int| 0 <= j < i && !s0.is_done((#[trigger] filled@[j])@)
                    ==> done_with_deadline(self.done_view(), filled@[j]@, done_deadline(s0.timestamp())),
                forall|g: Seq<char>| (forall|j: int| 0 <= j < i ==> (#[trigger] filled@[j])@ != g) ==> (self.is_open(g) == s0.is_open(g) && self.is_done(g) == s0.is_done(g)),
                forall|g: Seq<char>, d: u64| done_with_deadline(s0.done_view(), g, d) ==> done_with_deadline(self.done_view(), g, d),
                forall|j: int| 0 <= j < self.open_view().len() ==> s0.open_view().contains(#[trigger] self.open_view()[j]),
            decreases filled.len() - i,
        {
            let ghost before = *self;
            self.mark_as_done(&filled[i]);
            assert forall|j: int| 0 <= j < self.open_view().len() implies s0.open_view().contains(#[trigger] self.open_view()[j]) by {
                if before.is_open(filled@[i as int]@) {
                    let k = choose|k: int| 0 <= k < before.open_view().len() && (#[trigger] before.open_view()[k]).hash@ == filled@[i as int]@
                        && self.open_view() == before.open_view().remove(k);
                    if j < k {
                        assert(self.open_view()[j] == before.open_view()[j]);
                    } else {
                        assert(self.open_view()[j] == before.open_view()[j + 1]);
                    }
                } else {
                    assert(self.open_view()[j] == before.open_view()[j]);
                }
            }
            assert forall|j: int| 0 <= j < i + 1 && !s0.is_done((#[trigger] filled@[j])@)
                implies done_with_deadline(self.done_view(), filled@[j]@, done_deadline(s0.timestamp())) by {
                if j < i {
                } else if before.is_done(filled@[j]@) {
                    assert(forall|g: Seq<char>| (forall|jj: int| 0 <= jj < i ==> (#[trigger] filled@[jj])@ != g) ==> (before.is_done(g) == s0.is_done(g)));
                    let jj = choose|jj: int| 0 <= jj < i && (#[trigger] filled@[jj])@ == filled@[j]@;
                }
            }
            assert forall|g: Seq<char>| (forall|j: int| 0 <= j < i + 1 ==> (#[trigger] filled@[j])@ != g) implies (self.is_open(g) == s0.is_open(g) && self.is_done(g) == s0.is_done(g)) by {
                assert(filled@[i as int]@ != g);
                assert(forall|j: int| 0 <= j < i ==> (#[trigger] filled@[j])@ != g);
            }
            i = i + 1;
        }
    }

    /// Applies a fresh resolution of every open order at the current block:
    /// `resolutions[i]` is that of the `i`-th open order. Resolved orders stay
    /// open with their new terms; expired or invalid ones become done with a
    /// deadline `DONE_EXPIRY` after the current block.
    pub fn update_open_orders(&mut self, resolutions: Vec<OrderResolution>)
        requires
            old(self).wf(),
            resolutions@.len() == old(self).open_view().len(),
            all_wf(resolutions@),
        ensures
            final(self).wf(),
            final(self).timestamp() == old(self).timestamp(),
            final(self).block_number() == old(self).block_number(),
            final(self).bid() == old(self).bid(),
            final(self).open_view() == kept_open(old(self).open_view(), resolutions@, resolutions@.len()),
            final(self).done_view() == old(self).done_view() + retired(
                old(self).open_view(),
                resolutions@,
                resolutions@.len(),
                done_deadline(old(self).timestamp()),
            ),
            forall|i: int| 0 <= i < resolutions@.len() && !(#[trigger] resolutions@[i] is Resolved) ==> {
                &&& !final(self).is_open(old(self).open_view()[i].hash@)
                &&& done_with_deadline(final(self).done_view(), old(self).open_view()[i].hash@, done_deadline(old(self).timestamp()))
            },
    {
        let mut rest: Vec<PriorityOrderData> = Vec::new();
        std::mem::swap(&mut rest, &mut self.open_orders);
        let ghost src = rest@;
        let ghost res_src = resolutions@;
        let ghost d0 = self.done_orders@;
        let mut res = resolutions;
        let deadline = self.last_block_timestamp.saturating_add(DONE_EXPIRY);
        let ghost mut ki: Seq<int> = Seq::empty();
        let ghost mut ri: Seq<int> = Seq::empty();
        let n = rest.len();
        let mut k: usize = 0;
        while rest.len() > 0
            invariant
                k <= src.len(),
                k + rest@.len() == src.len(),
                n == src.len(),
                self.last_block_timestamp == old(self).last_block_timestamp,
                self.last_block_number == old(self).last_block_number,
                self.bid_percentage == old(self).bid_percentage,
                src == old(self).open_orders@,
                d0 == old(self).done_orders@,
                src.len() == res_src.len(),
                rest@ == src.skip(k as int),
                res@ == res_src.skip(k as int),
                open_unique(src),
                done_unique(d0),
                disjoint(src, d0),
                all_wf(res_src),
                deadline == done_deadline(self.last_block_timestamp),
                self.open_orders@ == kept_open(src, res_src, k as nat),
                self.done_orders@ == d0 + retired(src, res_src, k as nat, deadline),
                ki.len() == self.open_orders@.len(),
                forall|j: int| 0 <= j < ki.len() ==> 0 <= #[trigger] ki[j] < k
                    && self.open_orders@[j].hash@ == src[ki[j]].hash@
                    && res_src[ki[j]] is Resolved
                    && self.open_orders@[j].resolved.outputs@.len() > 0,
                forall|a: int, b: int| 0 <= a < b < ki.len() ==> #[trigger] ki[a] < #[trigger] ki[b],
                ri.len() + d0.len() == self.done_orders@.len(),
                forall|l: int| 0 <= l < ri.len() ==> 0 <= #[trigger] ri[l] < k
                    && self.done_orders@[d0.len() + l].hash@ == src[ri[l]].hash@
                    && !(res_src[ri[l]] is Resolved),
                forall|a: int, b: int| 0 <= a < b < ri.len() ==> #[trigger] ri[a] < #[trigger] ri[b],
                forall|i: int| 0 <= i < k && !(#[trigger] res_src[i] is Resolved) ==> done_with_deadline(self.done_orders@, src[i].hash@, deadline),
            decreases rest.len(),
        {
            assert(rest@[0] == src[k as int]);
            assert(res@[0] == res_src[k as int]);
            let e = rest.remove(0);
            let r = res.remove(0);
            assert(rest@ =~= src.skip(k + 1));
            assert(res@ =~= res_src.skip(k + 1));
            match r {
                OrderResolution::Resolved(rr) => {
                    assert(res_src[k as int].wf());
                    self.open_orders.push(
                        PriorityOrderData { order: e.order, hash: e.hash, signature: e.signature, resolved: rr },
                    );
                    proof {
                        ki = ki.push(k as int);
                    }
                },
                _ => {
                    let ghost before = self.done_orders@;
                    self.done_orders.push(DoneEntry { hash: e.hash, deadline });
                    proof {
                        assert forall|i: int| 0 <= i < k + 1 && !(#[trigger] res_src[i] is Resolved) implies done_with_deadline(self.done_orders@, src[i].hash@, deadline) by {
                            if i < k {
                                let l = choose|l: int| 0 <= l < before.len() && (#[trigger] before[l]).hash@ == src[i].hash@ && before[l].deadline == deadline;
                                assert(self.done_orders@[l] == before[l]);
                            } else {
                                assert(self.done_orders@[before.len() as int].hash@ == src[i].hash@);
                            }
                        }
                        ri = ri.push(k as int);
                        assert(d0 + retired(src, res_src, (k + 1) as nat, deadline) =~= (d0 + retired(src, res_src, k as nat, deadline)).push(DoneEntry { hash: src[k as int].hash, deadline }));
                    }
                },
            }
            k = k + 1;
        }
        assert(src.skip(k as int).len() == 0);
        let ghost o = self.open_orders@;
        let ghost dn = self.done_orders@;
        assert forall|i: int, j: int| 0 <= i < o.len() && 0 <= j < o.len() && i != j implies (#[trigger] o[i]).hash@ != (#[trigger] o[j]).hash@ by {
            if i < j {
                assert(ki[i] < ki[j]);
            } else {
                assert(ki[j] < ki[i]);
            }
        }
        assert forall|i: int, j: int| 0 <= i < dn.len() && 0 <= j < dn.len() && i != j implies (#[trigger] dn[i]).hash@ != (#[trigger] dn[j]).hash@ by {
            if i < d0.len() && j < d0.len() {
                assert(dn[i] == d0[i]);
                assert(dn[j] == d0[j]);
            } else if i < d0.len() {
                assert(dn[i] == d0[i]);
                assert(0 <= ri[j - d0.len()] < src.len());
                assert(src[ri[j - d0.len()]].hash@ != d0[i].hash@);
            } else if j < d0.len() {
                assert(dn[j] == d0[j]);
                assert(0 <= ri[i - d0.len()] < src.len());
                assert(src[ri[i - d0.len()]].hash@ != d0[j].hash@);
            } else {
                let a = i - d0.len();
                let b = j - d0.len();
                if a < b {
                    assert(ri[a] < ri[b]);
                } else {
                    assert(ri[b] < ri[a]);
                }
            }
        }
        assert forall|i: int, j: int| 0 <= i < o.len() && 0 <= j < dn.len() implies (#[trigger] o[i]).hash@ != (#[trigger] dn[j]).hash@ by {
            assert(0 <= ki[i] < src.len());
            if j < d0.len() {
                assert(dn[j] == d0[j]);
            } else {
                let l = j - d0.len();
                assert(0 <= ri[l] < src.len());
                assert(ki[i] != ri[l]);
            }
        }
        assert forall|i: int| 0 <= i < res_src.len() && !(#[trigger] res_src[i] is Resolved) implies !open_has(o, src[i].hash@) by {
            if open_has(o, src[i].hash@) {
                let j = choose|j: int| 0 <= j < o.len() && (#[trigger] o[j]).hash@ == src[i].hash@;
                assert(0 <= ki[j] < src.len());
                assert(src[ki[j]].hash@ == src[i].hash@);
                assert(ki[j] == i);
            }
        }
        assert(open_unique(o));
        assert(done_unique(dn));
        assert(disjoint(o, dn));
        assert forall|i: int| 0 <= i < o.len() implies (#[trigger] o[i]).resolved.outputs@.len() > 0 by {
            assert(0 <= ki[i] < k);
        }
    }

    /// Drops every done entry whose deadline is before the current block's timestamp.
    pub fn prune_done_orders(&mut self)
        requires
            old(self).wf(),
        ensures
            final(self).wf(),
            final(self).timestamp() == old(self).timestamp(),
            final(self).block_number() == old(self).block_number(),
            final(self).bid() == old(self).bid(),
            final(self).open_view() == old(self).open_view(),
            final(self).done_view() == old(self).done_view().filter(prune_keeps(old(self).timestamp())),
            forall|j: int| 0 <= j < final(self).done_view().len() ==> old(self).done_view().contains(#[trigger] final(self).done_view()[j])
                && !(final(self).done_view()[j].deadline < old(self).timestamp()),
    {
        let mut rest: Vec<DoneEntry> = Vec::new();
        std::mem::swap(&mut rest, &mut self.done_orders);
        let ghost src = rest@;
        let ts = self.last_block_timestamp;
        let ghost p = prune_keeps(ts);
        let ghost mut ki: Seq<int> = Seq::empty();
        let n = rest.len();
        let mut k: usize = 0;
        while rest.len() > 0
            invariant
                k <= src.len(),
                k + rest@.len() == src.len(),
                n == src.len(),
                rest@ == src.skip(k as int),
                ts == self.last_block_timestamp,
                self.last_block_timestamp == old(self).last_block_timestamp,
                self.last_block_number == old(self).last_block_number,
                self.bid_percentage == old(self).bid_percentage,
                self.open_orders@ == old(self).open_orders@,
                src == old(self).done_orders@,
                p == prune_keeps(ts),
                done_unique(src),
                disjoint(self.open_orders@, src),
                self.done_orders@ == src.take(k as int).filter(p),
                ki.len() == self.done_orders@.len(),
                forall|j: int| 0 <= j < ki.len() ==> 0 <= #[trigger] ki[j] < k
                    && self.done_orders@[j] == src[ki[j]] && !(src[ki[j]].deadline < ts),
                forall|a: int, b: int| 0 <= a < b < ki.len() ==> #[trigger] ki[a] < #[trigger] ki[b],
            decreases rest.len(),
        {
            assert(rest@[0] == src[k as int]);
            let e = rest.remove(0);
            assert(rest@ =~= src.skip(k + 1));
            proof {
                reveal(Seq::filter);
                assert(src.take(k + 1).drop_last() =~= src.take(k as int));
                assert(src.take(k + 1).last() == src[k as int]);
            }
            if !(e.deadline < ts) {
                self.done_orders.push(e);
                proof {
                    ki = ki.push(k as int);
                }
            }
            k = k + 1;
        }
        assert(src.take(k as int) =~= src);
        let ghost dn = self.done_orders@;
        assert forall|i: int, j: int| 0 <= i < dn.len() && 0 <= j < dn.len() && i != j implies (#[trigger] dn[i]).hash@ != (#[trigger] dn[j]).hash@ by {
            if i < j {
                assert(ki[i] < ki[j]);
            } else {
                assert(ki[j] < ki[i]);
            }
        }
        assert forall|i: int, j: int| 0 <= i < self.open_orders@.len() && 0 <= j < dn.len() implies (#[trigger] self.open_orders@[i]).hash@ != (#[trigger] dn[j]).hash@ by {
            assert(dn[j] == src[ki[j]]);
        }
        assert forall|j: int| 0 <= j < dn.len() implies src.contains(#[trigger] dn[j]) && !(dn[j].deadline < ts) by {
            assert(dn[j] == src[ki[j]]);
        }
    }

    /// One single-order batch per open order, in the ledger's order.
    pub fn get_order_batches(&self) -> (r: Vec<OrderBatchData>)
        requires
            self.wf(),
        ensures
            r@.len() == self.open_view().len(),
            forall|i: int| 0 <= i < r@.len() ==> batch_of(#[trigger] r@[i], self.open_view()[i]),
    {
        let mut batches: Vec<OrderBatchData> = Vec::new();
        let mut i: usize = 0;
        while i < self.open_orders.len()
            invariant
                i <= self.open_orders.len(),
                self.wf(),
                batches@.len() == i,
                forall|j: int| 0 <= j < i ==> batch_of(#[trigger] batches@[j], self.open_orders@[j]),
            decreases self.open_orders.len() - i,
        {
            let o = &self.open_orders[i];
            assert(o.resolved.outputs@.len() > 0);
            let mut orders: Vec<PriorityOrderData> = Vec::new();
            orders.push(copy_order(o));
            let batch = OrderBatchData {
                orders,
                amount_in: o.resolved.input.amount,
                amount_out_required: total_output(&o.resolved.outputs),
                token_in: o.resolved.input.token.clone(),
                token_out: o.resolved.outputs[0].token.clone(),
            };
            batches.push(batch);
            i = i + 1;
        }
        batches
    }

    /// Whether order submissions are taken: only once a block has given a timestamp.
    pub fn accepts_orders(&self) -> (r: bool)
        ensures
            r == (self.timestamp() != 0),
    {
        self.last_block_timestamp != 0
    }

    /// One of the batch's orders is already done.
    pub open spec fn route_is_stale(&self, routed: RoutedOrder) -> bool {
        exists|i: int| 0 <= i < routed.request.orders@.len() && self.is_done((#[trigger] routed.request.orders@[i]).hash@)
    }

    /// Decides on a routed batch: nothing when one of its orders is done, when the
    /// quote brings no profit, or when a signature cannot be read; otherwise the
    /// signed orders and a bid of `bid_percentage` of the profit.
    pub fn process_new_route(&self, routed: &RoutedOrder) -> (r: Option<FillAction>)
        requires
            self.wf(),
        ensures
            self.route_is_stale(*routed) ==> r.is_none(),
            !self.route_is_stale(*routed) ==> (r.is_some() == (profit_of(*routed).is_some()
                && signatures_decode(routed.request.orders@))),
            r.is_some() ==> signed_from(r->0.signed_orders@, routed.request.orders@)
                && r->0.gas_bid_info.bid_percentage == self.bid()
                && r->0.gas_bid_info.total_profit.value() == profit_of(*routed)->0,
    {
        let orders = &routed.request.orders;
        let mut i: usize = 0;
        while i < orders.len()
            invariant
                i <= orders.len(),
                *orders == routed.request.orders,
                forall|j: int| 0 <= j < i ==> !self.is_done((#[trigger] orders@[j]).hash@),
            decreases orders.len() - i,
        {
            if let Some(k) = self.find_done(&orders[i].hash) {
                assert(self.done_view()[k as int].hash@ == orders@[i as int].hash@);
                assert(self.is_done(routed.request.orders@[i as int].hash@));
                assert(self.route_is_stale(*routed));
                return None;
            }
            i = i + 1;
        }
        let profit = match get_profit_eth(routed) {
            Some(p) => p,
            None => return None,
        };
        let signed_orders = match get_signed_orders(orders) {
            Ok(v) => v,
            Err(_) => return None,
        };
        Some(
            FillAction {
                signed_orders,
                gas_bid_info: GasBidInfo { bid_percentage: self.bid_percentage, total_profit: profit },
            },
        )
    }

    /// Takes in a new block: records it, then applies the fills seen in it.
    pub fn process_new_block_event(&mut self, number: u64, timestamp: u64, filled: &Vec<String>)
        requires
            old(self).wf(),
        ensures
            final(self).wf(),
            final(self).block_number() == number,
            final(self).timestamp() == timestamp,
            final(self).bid() == old(self).bid(),
            forall|i: int| 0 <= i < filled@.len() ==> !final(self).is_open((#[trigger] filled@[i])@) && final(self).is_done(filled@[i]@),
            forall|i: int| 0 <= i < filled@.len() && !old(self).is_done((#[trigger] filled@[i])@)
                ==> done_with_deadline(final(self).done_view(), filled@[i]@, done_deadline(timestamp)),
            forall|g: Seq<char>| (forall|i: int| 0 <= i < filled@.len() ==> (#[trigger] filled@[i])@ != g) ==> (final(self).is_open(g) == old(self).is_open(g) && final(self).is_done(g) == old(self).is_done(g)),
            forall|g: Seq<char>, d: u64| done_with_deadline(old(self).done_view(), g, d) ==> done_with_deadline(final(self).done_view(), g, d),
            forall|j: int| 0 <= j < final(self).open_view().len() ==> old(self).open_view().contains(#[trigger] final(self).open_view()[j]),
    {
        self.record_block(number, timestamp);
        self.handle_fills(filled);
    }

    /// Ends a block: applies the open orders' fresh resolutions, prunes the done
    /// entries past their deadline, and returns the batches to publish.
    pub fn finish_block(&mut self, resolutions: Vec<OrderResolution>) -> (r: Vec<OrderBatchData>)
        requires
            old(self).wf(),
            resolutions@.len() == old(self).open_view().len(),
            all_wf(resolutions@),
        ensures
            final(self).wf(),
            final(self).timestamp() == old(self).timestamp(),
            final(self).block_number() == old(self).block_number(),
            final(self).bid() == old(self).bid(),
            final(self).open_view() == kept_open(old(self).open_view(), resolutions@, resolutions@.len()),
            final(self).done_view() == (old(self).done_view() + retired(
                old(self).open_view(),
                resolutions@,
                resolutions@.len(),
                done_deadline(old(self).timestamp()),
            )).filter(prune_keeps(old(self).timestamp())),
            r@.len() == final(self).open_view().len(),
            forall|i: int| 0 <= i < r@.len() ==> batch_of(#[trigger] r@[i], final(self).open_view()[i]),
            forall|i: int| 0 <= i < resolutions@.len() && !(#[trigger] resolutions@[i] is Resolved) ==> {
                &&& !final(self).is_open(old(self).open_view()[i].hash@)
                &&& done_with_deadline(final(self).done_view(), old(self).open_view()[i].hash@, done_deadline(old(self).timestamp()))
            },
    {
        let ghost res = resolutions@;
        let ghost open0 = self.open_view();
        let ghost ts = self.timestamp();
        self.update_open_orders(resolutions);
        let ghost mid = self.done_view();
        self.prune_done_orders();
        assert forall|i: int| 0 <= i < res.len() && !(#[trigger] res[i] is Resolved) implies done_with_deadline(
            self.done_view(),
            open0[i].hash@,
            done_deadline(ts),
        ) by {
            assert(done_with_deadline(mid, open0[i].hash@, done_deadline(ts)));
            lemma_prune_deadline(mid, ts, open0[i].hash@, done_deadline(ts));
            if !(ts < done_deadline(ts)) {
                let l = choose|l: int| 0 <= l < mid.len() && (#[trigger] mid[l]).hash@ == open0[i].hash@ && mid[l].deadline == done_deadline(ts);
                mid.lemma_filter_contains(prune_keeps(ts), l);
                let j = choose|j: int| 0 <= j < mid.filter(prune_keeps(ts)).len() && mid.filter(prune_keeps(ts))[j] == mid[l];
                assert(self.done_view()[j] == mid[l]);
            }
        }
        self.get_order_batches()
    }

    /// Applies a fresh resolution of the order `order_hash`. Expired or invalid:
    /// the order becomes done. Resolved: nothing happens to a done hash; otherwise
    /// the open entry is stored, replacing the one with the same hash in place.
    pub fn update_order_state(
        &mut self,
        resolution: OrderResolution,
        order: Vec<u8>,
        signature: String,
        order_hash: String,
    )
        requires
            old(self).wf(),
            resolution.wf(),
        ensures
            final(self).wf(),
            final(self).timestamp() == old(self).timestamp(),
            final(self).block_number() == old(self).block_number(),
            final(self).bid() == old(self).bid(),
            match resolution {
                OrderResolution::Resolved(r) => {
                    let data = PriorityOrderData { order, hash: order_hash, signature, resolved: r };
                    if old(self).is_done(order_hash@) {
                        final(self).open_view() == old(self).open_view()
                    } else if old(self).is_open(order_hash@) {
                        exists|k: int|
                            0 <= k < old(self).open_view().len() && (#[trigger] old(self).open_view()[k]).hash@ == order_hash@
                                && final(self).open_view() == old(self).open_view().update(k, data)
                    } else {
                        final(self).open_view() == old(self).open_view().push(data)
                    }
                },
                _ => {
                    &&& !final(self).is_open(order_hash@)
                    &&& old(self).is_open(order_hash@) ==> exists|k: int|
                        0 <= k < old(self).open_view().len() && (#[trigger] old(self).open_view()[k]).hash@ == order_hash@
                            && final(self).open_view() == old(self).open_view().remove(k)
                    &&& !old(self).is_open(order_hash@) ==> final(self).open_view() == old(self).open_view()
                    &&& old(self).is_done(order_hash@) ==> final(self).done_view() == old(self).done_view()
                    &&& !old(self).is_done(order_hash@) ==> final(self).done_view()
                        == old(self).done_view().push(
                        (DoneEntry { hash: order_hash, deadline: done_deadline(old(self).timestamp()) }),
                    )
                },
            },
            resolution is Resolved ==> final(self).done_view() == old(self).done_view(),
            !(resolution is Resolved) ==> forall|h: Seq<char>| h != order_hash@ ==> (final(self).is_open(h) == old(self).is_open(h)),
            old(self).is_done(order_hash@) ==> final(self).is_done(order_hash@) && !final(self).is_open(order_hash@),
            old(self).is_done(order_hash@) ==> final(self).open_view() == old(self).open_view()
                && final(self).done_view() == old(self).done_view(),
    {
        proof {
            lemma_open_done_exclusive(&*self, order_hash@);
        }
        match resolution {
            OrderResolution::Resolved(r) => {
                if self.find_done(&order_hash).is_some() {
                    return;
                }
                let data = PriorityOrderData { order, hash: order_hash, signature, resolved: r };
                let ghost o = self.open_orders@;
                match self.find_open(&data.hash) {
                    Some(k) => {
                        self.open_orders.remove(k);
                        self.open_orders.insert(k, data);
                        assert(self.open_orders@ =~= o.update(k as int, data));
                    },
                    None => {
                        self.open_orders.push(data);
                    },
                }
                assert forall|i: int, j: int| 0 <= i < self.open_orders@.len() && 0 <= j < self.open_orders@.len() && i != j
                    implies (#[trigger] self.open_orders@[i]).hash@ != (#[trigger] self.open_orders@[j]).hash@ by {
                    if i < o.len() && j < o.len() {
                        assert(self.open_orders@[i].hash@ == o[i].hash@);
                        assert(self.open_orders@[j].hash@ == o[j].hash@);
                    } else if i < o.len() {
                        assert(self.open_orders@[i].hash@ == o[i].hash@);
                    } else if j < o.len() {
                        assert(self.open_orders@[j].hash@ == o[j].hash@);
                    }
                }
                assert forall|i: int, j: int| 0 <= i < self.open_orders@.len() && 0 <= j < self.done_orders@.len()
                    implies (#[trigger] self.open_orders@[i]).hash@ != (#[trigger] self.done_orders@[j]).hash@ by {
                    if i < o.len() {
                        assert(self.open_orders@[i].hash@ == o[i].hash@);
                    }
                }
            },
            _ => {
                self.mark_as_done(&order_hash);
            },
        }
    }
}

/// The resolutions that the orders kept open by `res` got: the resolved ones, in order.
pub open spec fn resolved_only(res: Seq<OrderResolution>, n: nat) -> Seq<OrderResolution>
    decreases n,
{
    if n == 0 {
        Seq::empty()
    } else {
        let prev = resolved_only(res, (n - 1) as nat);
        match res[n - 1] {
            OrderResolution::Resolved(_) => prev.push(res[n - 1]),
            _ => prev,
        }
    }
}

proof fn lemma_prefix(
    a1: Seq<PriorityOrderData>,
    b1: Seq<OrderResolution>,
    a2: Seq<PriorityOrderData>,
    b2: Seq<OrderResolution>,
    m: nat,
    d: u64,
)
    requires
        m <= a1.len(),
        m <= a2.len(),
        m <= b1.len(),
        m <= b2.len(),
        forall|i: int| 0 <= i < m ==> a1[i] == a2[i] && b1[i] == b2[i],
    ensures
        kept_open(a1, b1, m) == kept_open(a2, b2, m),
        retired(a1, b1, m, d) == retired(a2, b2, m, d),
    decreases m,
{
    if m > 0 {
        lemma_prefix(a1, b1, a2, b2, (m - 1) as nat, d);
    }
}

proof fn lemma_reresolve_step(open: Seq<PriorityOrderData>, res: Seq<OrderResolution>, n: nat, d: u64)
    requires
        n <= open.len(),
        n <= res.len(),
    ensures
        resolved_only(res, n).len() == kept_open(open, res, n).len(),
        kept_open(kept_open(open, res, n), resolved_only(res, n), kept_open(open, res, n).len()) == kept_open(open, res, n),
        retired(kept_open(open, res, n), resolved_only(res, n), kept_open(open, res, n).len(), d).len() == 0,
    decreases n,
{
    if n > 0 {
        let m = (n - 1) as nat;
        lemma_reresolve_step(open, res, m, d);
        let o1 = kept_open(open, res, m);
        let r1 = resolved_only(res, m);
        let o2 = kept_open(open, res, n);
        let r2 = resolved_only(res, n);
        lemma_prefix(o1, r1, o2, r2, o1.len(), d);
    }
}

/// Re-resolving the open orders a second time at the same timestamp, where each
/// order still open resolves as it did the first time, changes nothing: the open
/// orders stay as they are and no order becomes done.
pub proof fn lemma_reresolve_idempotent(open: Seq<PriorityOrderData>, res: Seq<OrderResolution>, deadline: u64)
    requires
        res.len() == open.len(),
    ensures
        ({
            let once = kept_open(open, res, res.len());
            let again = resolved_only(res, res.len());
            &&& again.len() == once.len()
            &&& kept_open(once, again, again.len()) == once
            &&& retired(once, again, again.len(), deadline) == Seq::<DoneEntry>::empty()
        }),
{
    lemma_reresolve_step(open, res, res.len(), deadline);
    let once = kept_open(open, res, res.len());
    let again = resolved_only(res, res.len());
    assert(retired(once, again, again.len(), deadline) =~= Seq::<DoneEntry>::empty());
}

/// No hash is open and done at once, in any well-formed ledger.
pub proof fn lemma_open_done_exclusive(s: &UniswapXPriorityFill, h: Seq<char>)
    requires
        s.wf(),
    ensures
        !(s.is_open(h) && s.is_done(h)),
{
    if s.is_open(h) && s.is_done(h) {
        let i = choose|i: int| 0 <= i < s.open_view().len() && (#[trigger] s.open_view()[i]).hash@ == h;
        let j = choose|j: int| 0 <= j < s.done_view().len() && (#[trigger] s.done_view()[j]).hash@ == h;
        assert(s.open_view()[i].hash@ != s.done_view()[j].hash@);
    }
}

proof fn lemma_filter_from_source(s: Seq<DoneEntry>, p: spec_fn(DoneEntry) -> bool, j: int)
    requires
        0 <= j < s.filter(p).len(),
    ensures
        s.contains(s.filter(p)[j]),
        p(s.filter(p)[j]),
    decreases s.len(),
{
    reveal(Seq::filter);
    if s.len() > 0 {
        let sub = s.drop_last().filter(p);
        if j < sub.len() {
            lemma_filter_from_source(s.drop_last(), p, j);
            let k = choose|k: int| 0 <= k < s.drop_last().len() && s.drop_last()[k] == sub[j];
            assert(s[k] == sub[j]);
        } else {
            assert(s[s.len() - 1] == s.filter(p)[j]);
        }
    }
}

/// Pruning at `ts` keeps a done entry whose deadline `d` is after `ts` and drops
/// one whose deadline is before it.
pub proof fn lemma_prune_deadline(done: Seq<DoneEntry>, ts: u64, h: Seq<char>, d: u64)
    requires
        done_unique(done),
        done_with_deadline(done, h, d),
    ensures
        ts < d ==> done_with_deadline(done.filter(prune_keeps(ts)), h, d),
        ts > d ==> !done_has(done.filter(prune_keeps(ts)), h),
{
    let p = prune_keeps(ts);
    let i = choose|i: int| 0 <= i < done.len() && (#[trigger] done[i]).hash@ == h && done[i].deadline == d;
    if ts < d {
        done.lemma_filter_contains(p, i);
        let j = choose|j: int| 0 <= j < done.filter(p).len() && done.filter(p)[j] == done[i];
        assert(done.filter(p)[j].hash@ == h);
    }
    if ts > d && done_has(done.filter(p), h) {
        let j = choose|j: int| 0 <= j < done.filter(p).len() && (#[trigger] done.filter(p)[j]).hash@ == h;
        lemma_filter_from_source(done, p, j);
        let k = choose|k: int| 0 <= k < done.len() && done[k] == done.filter(p)[j];
        if k != i {
            assert(done[k].hash@ != done[i].hash@);
        }
    }
}

} // verus!
