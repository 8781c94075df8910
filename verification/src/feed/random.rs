//! A reproducible random-walk feed of limit orders: each order is priced
//! within ten ticks of a mid price, and the mid takes a random step of -1, 0
//! or +1 tick after every order.

use crate::order::{Order, OrderId, OrderType, Price, Side};
use vstd::prelude::*;

verus! {

/// The mid price the walk starts from, in ticks.
pub const MID: i64 = 10_000;

/// The lowest mid the walk reaches; prices stay positive.
pub const MIN_MID: i64 = 11;

/// The highest mid the walk reaches; prices stay within an `i64`.
pub const MAX_MID: i64 = 9_223_372_036_854_775_797;

/// One step of the xorshift generator (shifts 13, 7, 17).
pub open spec fn xorshift(x: u64) -> u64 {
    let a = x ^ (x << 13u64);
    let b = a ^ (a >> 7u64);
    b ^ (b << 17u64)
}

/// The order the feed makes from the random word `r` when `issued` orders
/// came before it and the mid stands at `mid`: the low bit picks the side,
/// the next bits an offset of -10 to 10 ticks from the mid, the bits from 6
/// up a quantity of 1 to 10.
pub open spec fn random_order(r: u64, issued: u64, mid: i64) -> Order {
    Order {
        id: (issued + 1) as u64,
        side: if r & 1 == 0 { Side::Bid } else { Side::Ask },
        kind: OrderType::Limit,
        price: Some(Price((mid + ((r >> 1u64) % 21) - 10) as i64)),
        qty: ((r >> 6u64) % 10 + 1) as u64,
        ts: (issued + 1) as u64,
    }
}

/// The mid after an order made from the random word `r`: bits 32 and up pick
/// a step of -1, 0 or +1 tick, and the mid stays within `MIN_MID..=MAX_MID`.
pub open spec fn next_mid(mid: i64, r: u64) -> i64 {
    let m = mid + ((r >> 32u64) % 3) - 1;
    if m < MIN_MID {
        MIN_MID
    } else if m > MAX_MID {
        MAX_MID
    } else {
        m as i64
    }
}

/// The state a feed seeded with `seed` starts from: a zero seed counts as one,
/// since xorshift never leaves zero.
pub open spec fn start_state(seed: u64) -> u64 {
    if seed == 0 {
        1
    } else {
        seed
    }
}

/// The generator's state after `k` more steps from `state`.
pub open spec fn state_after(state: u64, k: nat) -> u64
    decreases k,
{
    if k == 0 {
        state
    } else {
        state_after(xorshift(state), (k - 1) as nat)
    }
}

/// The mid after `k` more orders of a feed in state `state`, its mid at `mid`.
pub open spec fn mid_after(state: u64, mid: i64, k: nat) -> i64
    decreases k,
{
    if k == 0 {
        mid
    } else {
        let r = xorshift(state);
        mid_after(r, next_mid(mid, r), (k - 1) as nat)
    }
}

/// The next `n` orders of a feed in state `state` that has issued `issued`
/// orders, its mid at `mid`.
pub open spec fn feed_run(state: u64, issued: u64, mid: i64, n: nat) -> Seq<Order>
    decreases n,
{
    if n == 0 {
        seq![]
    } else {
        let r = xorshift(state);
        seq![random_order(r, issued, mid)] + feed_run(r, (issued + 1) as u64, next_mid(mid, r), (n - 1) as nat)
    }
}

/// The first `n` orders of a feed seeded with `seed`.
pub open spec fn seeded_orders(seed: u64, n: nat) -> Seq<Order> {
    feed_run(start_state(seed), 0, MID, n)
}

/// The mid the `k`-th order (from zero) of a feed seeded with `seed` is drawn
/// around.
pub open spec fn seeded_mid(seed: u64, k: nat) -> i64 {
    mid_after(start_state(seed), MID, k)
}

proof fn lemma_next_mid(mid: i64, r: u64)
    requires
        MIN_MID <= mid <= MAX_MID,
    ensures
        MIN_MID <= next_mid(mid, r) <= MAX_MID,
        mid - 1 <= next_mid(mid, r) <= mid + 1,
{
}

proof fn lemma_mid_walk(state: u64, mid: i64, k: nat)
    requires
        MIN_MID <= mid <= MAX_MID,
    ensures
        MIN_MID <= mid_after(state, mid, k) <= MAX_MID,
        mid_after(state, mid, k) - 1 <= mid_after(state, mid, k + 1) <= mid_after(state, mid, k) + 1,
    decreases k,
{
    let r = xorshift(state);
    let nm = next_mid(mid, r);
    lemma_next_mid(mid, r);
    assert(mid_after(state, mid, k + 1) == mid_after(r, nm, k));
    if k > 0 {
        lemma_mid_walk(r, nm, (k - 1) as nat);
        assert(mid_after(state, mid, k) == mid_after(r, nm, (k - 1) as nat));
        assert(mid_after(r, nm, k) == mid_after(r, nm, ((k - 1) + 1) as nat));
    } else {
        assert(mid_after(r, nm, 0) == nm);
    }
}

proof fn lemma_run_order(state: u64, issued: u64, mid: i64, n: nat, k: nat)
    requires
        MIN_MID <= mid <= MAX_MID,
        k < n,
        issued + n < u64::MAX,
    ensures
        feed_run(state, issued, mid, n).len() == n,
        ({
            let o = feed_run(state, issued, mid, n)[k as int];
            let m = mid_after(state, mid, k);
            &&& o.id == issued + k + 1
            &&& o.ts == issued + k + 1
            &&& o.kind == OrderType::Limit
            &&& 1 <= o.qty <= 10
            &&& o.price is Some
            &&& m - 10 <= o.price.unwrap().0 <= m + 10
        }),
    decreases n,
{
    let r = xorshift(state);
    lemma_next_mid(mid, r);
    let tail = feed_run(r, (issued + 1) as u64, next_mid(mid, r), (n - 1) as nat);
    assert(feed_run(state, issued, mid, n) == seq![random_order(r, issued, mid)] + tail);
    if k == 0 {
        if n > 1 {
            lemma_run_order(r, (issued + 1) as u64, next_mid(mid, r), (n - 1) as nat, 0);
        }
        assert((r >> 6u64) % 10 < 10);
        assert((r >> 1u64) % 21 < 21);
    } else {
        lemma_run_order(r, (issued + 1) as u64, next_mid(mid, r), (n - 1) as nat, (k - 1) as nat);
    }
}

/// Law: a feed seeded with a nonzero seed starts from that very seed, so
/// distinct nonzero seeds start from distinct states; only a zero seed is
/// moved, to one.
pub proof fn law_seed_is_start(a: u64, b: u64)
    ensures
        a >= 1 ==> start_state(a) == a,
        start_state(0) == 1,
        a >= 1 && b >= 1 && a != b ==> start_state(a) != start_state(b),
{
}

/// Law: a zero seed and a seed of one give the same orders.
pub proof fn law_zero_seed_is_one(n: nat)
    ensures
        seeded_orders(0, n) == seeded_orders(1, n),
{
}

/// Law: the `k`-th order (from zero) of a seeded feed is the limit order with
/// id and timestamp `k + 1`, a quantity of 1 to 10, priced within ten ticks of
/// the walk's mid at that point; the walk starts at `MID`, stays within
/// `MIN_MID..=MAX_MID`, and moves at most one tick per order.
pub proof fn law_feed_orders(seed: u64, n: nat, k: nat)
    requires
        k < n,
        n < u64::MAX,
    ensures
        seeded_orders(seed, n).len() == n,
        seeded_orders(seed, n)[k as int].id == k + 1,
        seeded_orders(seed, n)[k as int].ts == k + 1,
        seeded_orders(seed, n)[k as int].kind == OrderType::Limit,
        1 <= seeded_orders(seed, n)[k as int].qty <= 10,
        seeded_orders(seed, n)[k as int].price is Some,
        seeded_mid(seed, k) - 10 <= seeded_orders(seed, n)[k as int].price.unwrap().0 <= seeded_mid(seed, k) + 10,
        seeded_mid(seed, 0) == MID,
        MIN_MID <= seeded_mid(seed, k) <= MAX_MID,
        seeded_mid(seed, k) - 1 <= seeded_mid(seed, k + 1) <= seeded_mid(seed, k) + 1,
{
    lemma_run_order(start_state(seed), 0, MID, n, k);
    lemma_mid_walk(start_state(seed), MID, k);
}

/// A seeded generator of limit orders around a walking mid price.
pub struct RandomFeed {
    state: u64,
    next_id: OrderId,
    mid: i64,
    ts: u64,
}

impl RandomFeed {
    #[verifier::type_invariant]
    spec fn inv(self) -> bool {
        &&& MIN_MID <= self.mid <= MAX_MID
        &&& self.next_id == self.ts + 1
    }

    /// The generator's state.
    pub closed spec fn state(&self) -> u64 {
        self.state
    }

    /// How many orders the feed has issued.
    pub closed spec fn issued(&self) -> u64 {
        self.ts
    }

    /// The mid price the next order is drawn around.
    pub closed spec fn mid(&self) -> i64 {
        self.mid
    }

    /// A feed seeded with `seed` (a zero seed counts as one), its mid at `MID`.
    pub fn new(seed: u64) -> (feed: Self)
        ensures
            feed.state() == start_state(seed),
            feed.issued() == 0,
            feed.mid() == MID,
    {
        RandomFeed { state: if seed >= 1 { seed } else { 1 }, next_id: 1, mid: MID, ts: 0 }
    }

    /// Advances the generator and returns its new state.
    fn next_u64(&mut self) -> (r: u64)
        ensures
            r == xorshift(old(self).state()),
            final(self).state() == r,
            final(self).issued() == old(self).issued(),
            final(self).mid() == old(self).mid(),
    {
        proof {
            use_type_invariant(&*self);
        }
        let mut x = self.state;
        x ^= x << 13u64;
        x ^= x >> 7u64;
        x ^= x << 17u64;
        self.state = x;
        x
    }

    /// The next order of the feed, priced around the current mid; the mid
    /// then takes its step. The feed never runs dry.
    pub fn next(&mut self) -> (r: Option<Order>)
        requires
            old(self).issued() < u64::MAX - 1,
        ensures
            r == Some(random_order(xorshift(old(self).state()), old(self).issued(), old(self).mid())),
            final(self).state() == xorshift(old(self).state()),
            final(self).issued() == old(self).issued() + 1,
            final(self).mid() == next_mid(old(self).mid(), xorshift(old(self).state())),
    {
        let r = self.next_u64();
        proof {
            use_type_invariant(&*self);
        }
        let side = if r & 1 == 0 { Side::Bid } else { Side::Ask };
        let offset = ((r >> 1u64) % 21) as i64 - 10;
        let price = Price(self.mid + offset);
        let qty = ((r >> 6u64) % 10) + 1;
        let id = self.next_id;
        let ts = self.ts + 1;
        let stepped = self.mid + ((r >> 32u64) % 3) as i64 - 1;
        let mid = if stepped < MIN_MID {
            MIN_MID
        } else if stepped > MAX_MID {
            MAX_MID
        } else {
            stepped
        };
        *self = RandomFeed { state: self.state, next_id: self.next_id + 1, mid, ts };
        Some(Order { id, side, kind: OrderType::Limit, price: Some(price), qty, ts })
    }

    /// The next `n` orders of the feed, in the order `next` gives them.
    pub fn take(&mut self, n: u64) -> (orders: Vec<Order>)
        requires
            old(self).issued() + n < u64::MAX - 1,
        ensures
            orders@ == feed_run(old(self).state(), old(self).issued(), old(self).mid(), n as nat),
            final(self).state() == state_after(old(self).state(), n as nat),
            final(self).issued() == old(self).issued() + n,
            final(self).mid() == mid_after(old(self).state(), old(self).mid(), n as nat),
    {
        let ghost s0 = self.state();
        let ghost i0 = self.issued();
        let ghost m0 = self.mid();
        let mut orders: Vec<Order> = Vec::new();
        let mut i: u64 = 0;
        while i < n
            invariant
                i <= n,
                i0 + n < u64::MAX - 1,
                self.issued() == i0 + i,
                orders@ + feed_run(self.state(), self.issued(), self.mid(), (n - i) as nat) == feed_run(s0, i0, m0, n as nat),
                state_after(self.state(), (n - i) as nat) == state_after(s0, n as nat),
                mid_after(self.state(), self.mid(), (n - i) as nat) == mid_after(s0, m0, n as nat),
            decreases n - i,
        {
            let ghost before = orders@;
            let ghost st = self.state();
            let ghost is = self.issued();
            let ghost md = self.mid();
            let order = self.next().unwrap();
            orders.push(order);
            proof {
                let k = (n - i) as nat;
                let rest = feed_run(self.state(), self.issued(), self.mid(), (k - 1) as nat);
                assert(feed_run(st, is, md, k) == seq![order] + rest);
                assert(orders@ + rest =~= before + (seq![order] + rest));
            }
            i = i + 1;
        }
        orders
    }
}

} // verus!
