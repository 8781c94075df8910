//! One price level of the order book: the orders resting at a price, in time
//! priority, and their total quantity.

use std::collections::VecDeque;

use crate::order::Order;
use vstd::prelude::*;

verus! {

/// The sum of the quantities of `orders`.
pub open spec fn qty_sum(orders: Seq<Order>) -> int
    decreases orders.len(),
{
    if orders.len() == 0 {
        0
    } else {
        orders[0].qty + qty_sum(orders.drop_first())
    }
}

/// The orders resting at one price, oldest first, and their total quantity.
#[derive(Debug)]
pub struct PriceLevel {
    pub orders: VecDeque<Order>,
    pub total_qty: u64,
}

impl PriceLevel {
    /// The orders of the level, oldest first.
    pub open spec fn view(&self) -> Seq<Order> {
        self.orders@
    }

    /// The cached total is the sum of the orders' quantities.
    pub open spec fn total_matches(&self) -> bool {
        self.total_qty == qty_sum(self.orders@)
    }

    /// An empty level.
    pub fn new() -> (level: Self)
        ensures
            level@ == Seq::<Order>::empty(),
            level.total_qty == 0,
    {
        PriceLevel { orders: VecDeque::new(), total_qty: 0 }
    }
}

impl Default for PriceLevel {
    /// An empty level.
    fn default() -> (level: Self)
        ensures
            level@ == Seq::<Order>::empty(),
            level.total_qty == 0,
    {
        PriceLevel::new()
    }
}

pub proof fn lemma_qty_sum_nonneg(s: Seq<Order>)
    ensures
        qty_sum(s) >= 0,
    decreases s.len(),
{
    if s.len() > 0 {
        lemma_qty_sum_nonneg(s.drop_first());
    }
}

pub proof fn lemma_qty_sum_push(s: Seq<Order>, o: Order)
    ensures
        qty_sum(s.push(o)) == qty_sum(s) + o.qty,
    decreases s.len(),
{
    if s.len() == 0 {
        assert(s.push(o).drop_first() =~= Seq::<Order>::empty());
        assert(qty_sum(Seq::<Order>::empty()) == 0);
    } else {
        assert(s.push(o).drop_first() =~= s.drop_first().push(o));
        lemma_qty_sum_push(s.drop_first(), o);
    }
}

pub proof fn lemma_qty_sum_remove(s: Seq<Order>, i: int)
    requires
        0 <= i < s.len(),
    ensures
        qty_sum(s.remove(i)) == qty_sum(s) - s[i].qty,
    decreases s.len(),
{
    if i == 0 {
        assert(s.remove(0) =~= s.drop_first());
    } else {
        assert(s.remove(i).drop_first() =~= s.drop_first().remove(i - 1));
        lemma_qty_sum_remove(s.drop_first(), i - 1);
    }
}

pub proof fn lemma_qty_sum_update_front(s: Seq<Order>, o: Order)
    requires
        s.len() > 0,
    ensures
        qty_sum(s.update(0, o)) == qty_sum(s) - s[0].qty + o.qty,
{
    assert(s.update(0, o).drop_first() =~= s.drop_first());
}

pub proof fn lemma_qty_sum_ge_element(s: Seq<Order>, i: int)
    requires
        0 <= i < s.len(),
    ensures
        qty_sum(s) >= s[i].qty,
{
    lemma_qty_sum_remove(s, i);
    lemma_qty_sum_nonneg(s.remove(i));
}

} // verus!
