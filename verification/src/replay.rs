//! A price-level book driven by LOBSTER messages, and the step-by-step check
//! of its top levels against LOBSTER's published snapshots.

use std::collections::BTreeMap;

use crate::feed::lobster::MessageRow;
use crate::keys::{
    greatest_below, greatest_key_below, is_greatest_below, is_least_above, lemma_greatest_below_unique,
    lemma_least_above_unique, least_above, least_key_above,
};
use crate::text::{parse_i64, parse_int, split_commas, trim, trim_bounds, IntError};
use vstd::prelude::*;

verus! {

broadcast use vstd::std_specs::btree::group_btree_axioms;

/// The ask price a snapshot shows for an empty level.
pub const ASK_EMPTY: i64 = 9_999_999_999;

/// The bid price a snapshot shows for an empty level.
pub const BID_EMPTY: i64 = -9_999_999_999;

/// The aggregate size resting at each price of each side.
pub struct LobsterView {
    pub bids: Map<i64, u64>,
    pub asks: Map<i64, u64>,
}

/// A price-level book: the aggregate size resting at each price.
#[derive(Debug)]
pub struct LobsterBook {
    /// Bid sizes by price in ticks.
    pub bids: BTreeMap<i64, u64>,
    /// Ask sizes by price in ticks.
    pub asks: BTreeMap<i64, u64>,
}

impl View for LobsterBook {
    type V = LobsterView;

    open spec fn view(&self) -> LobsterView {
        LobsterView { bids: self.bids@, asks: self.asks@ }
    }
}

/// The size at `price`, zero when there is no level.
pub open spec fn size_at(levels: Map<i64, u64>, price: i64) -> int {
    if levels.contains_key(price) {
        levels[price] as int
    } else {
        0
    }
}

/// One side after a message: an add (type 1) grows the level at the
/// message's price; a cancel, delete or execution (types 2 to 4) shrinks it,
/// and removes it when the message takes all of it or more; a message for a
/// price with no level, or of any other type, changes nothing.
pub open spec fn apply_side(levels: Map<i64, u64>, row: MessageRow) -> Map<i64, u64> {
    let p = row.price;
    if row.event_type == 1 {
        levels.insert(p, (size_at(levels, p) + row.size) as u64)
    } else if 2 <= row.event_type <= 4 && levels.contains_key(p) {
        if levels[p] > row.size {
            levels.insert(p, (levels[p] - row.size) as u64)
        } else {
            levels.remove(p)
        }
    } else {
        levels
    }
}

/// The book after a message: direction 1 acts on the bids, -1 on the asks,
/// anything else on neither.
pub open spec fn apply_result(v: LobsterView, row: MessageRow) -> LobsterView {
    if row.direction == 1 {
        LobsterView { bids: apply_side(v.bids, row), ..v }
    } else if row.direction == -1 {
        LobsterView { asks: apply_side(v.asks, row), ..v }
    } else {
        v
    }
}

/// The level an add message grows stays within a `u64`.
pub open spec fn apply_fits(v: LobsterView, row: MessageRow) -> bool {
    row.event_type == 1 ==> {
        &&& row.direction == 1 ==> size_at(v.bids, row.price) + row.size <= u64::MAX
        &&& row.direction == -1 ==> size_at(v.asks, row.price) + row.size <= u64::MAX
    }
}

/// The book after the `i`-th level of a snapshot is seeded into it: its ask
/// (columns `4i`, `4i + 1`) and its bid (columns `4i + 2`, `4i + 3`) are set
/// unless the price is the empty marker or the size is not positive.
pub open spec fn seed_level(v: LobsterView, snap: Seq<i64>, i: int) -> LobsterView {
    let ap = snap[4 * i];
    let asz = snap[4 * i + 1];
    let bp = snap[4 * i + 2];
    let bsz = snap[4 * i + 3];
    LobsterView {
        asks: if ap != ASK_EMPTY && asz > 0 { v.asks.insert(ap, asz as u64) } else { v.asks },
        bids: if bp != BID_EMPTY && bsz > 0 { v.bids.insert(bp, bsz as u64) } else { v.bids },
    }
}

/// The book after the first `n` levels of a snapshot are seeded into it.
pub open spec fn seeded(v: LobsterView, snap: Seq<i64>, n: nat) -> LobsterView
    decreases n,
{
    if n == 0 {
        v
    } else {
        seed_level(seeded(v, snap, (n - 1) as nat), snap, n - 1)
    }
}

/// The `n`-th lowest price of `s` (counting from zero), if it has that many.
pub open spec fn nth_lowest(s: Set<i64>, n: nat) -> Option<i64>
    decreases n,
{
    if n == 0 {
        least_above(s, None)
    } else {
        match nth_lowest(s, (n - 1) as nat) {
            Some(k) => least_above(s, Some(k)),
            None => None,
        }
    }
}

/// The `n`-th highest price of `s` (counting from zero), if it has that many.
pub open spec fn nth_highest(s: Set<i64>, n: nat) -> Option<i64>
    decreases n,
{
    if n == 0 {
        greatest_below(s, None)
    } else {
        match nth_highest(s, (n - 1) as nat) {
            Some(k) => greatest_below(s, Some(k)),
            None => None,
        }
    }
}

/// The four snapshot columns of level `i`: the `i`-th lowest ask and its size,
/// the `i`-th highest bid and its size, with the empty markers and a zero size
/// where a side has fewer levels.
pub open spec fn top_row(v: LobsterView, i: nat) -> Seq<i64> {
    let ask = match nth_lowest(v.asks.dom(), i) {
        Some(k) => seq![k, v.asks[k] as i64],
        None => seq![ASK_EMPTY, 0i64],
    };
    let bid = match nth_highest(v.bids.dom(), i) {
        Some(k) => seq![k, v.bids[k] as i64],
        None => seq![BID_EMPTY, 0i64],
    };
    ask + bid
}

/// The snapshot columns of the top `n` levels.
pub open spec fn top_rows(v: LobsterView, n: nat) -> Seq<i64>
    decreases n,
{
    if n == 0 {
        seq![]
    } else {
        top_rows(v, (n - 1) as nat) + top_row(v, (n - 1) as nat)
    }
}

fn apply_to(levels: &mut BTreeMap<i64, u64>, row: MessageRow)
    requires
        row.event_type == 1 ==> size_at(old(levels)@, row.price) + row.size <= u64::MAX,
    ensures
        final(levels)@ == apply_side(old(levels)@, row),
{
    let price = row.price;
    match row.event_type {
        1 => {
            let cur = match levels.get(&price) {
                Some(s) => *s,
                None => 0,
            };
            levels.insert(price, cur + row.size);
        },
        2 | 3 | 4 => {
            let cur = match levels.get(&price) {
                Some(s) => Some(*s),
                None => None,
            };
            if let Some(s) = cur {
                if s > row.size {
                    levels.insert(price, s - row.size);
                } else {
                    levels.remove(&price);
                }
            }
        },
        _ => {},
    }
}

impl Default for LobsterBook {
    /// An empty book.
    fn default() -> (book: Self)
        ensures
            book@.bids == Map::<i64, u64>::empty(),
            book@.asks == Map::<i64, u64>::empty(),
    {
        LobsterBook::new()
    }
}

impl LobsterBook {
    /// An empty book.
    pub fn new() -> (book: Self)
        ensures
            book@.bids == Map::<i64, u64>::empty(),
            book@.asks == Map::<i64, u64>::empty(),
    {
        LobsterBook { bids: BTreeMap::new(), asks: BTreeMap::new() }
    }

    /// Applies one message to the book.
    pub fn apply(&mut self, row: MessageRow)
        requires
            apply_fits(old(self)@, row),
        ensures
            final(self)@ == apply_result(old(self)@, row),
    {
        match row.direction {
            1 => apply_to(&mut self.bids, row),
            -1 => apply_to(&mut self.asks, row),
            _ => {},
        }
    }

    /// Seeds the book with the first `depth` levels of a snapshot row.
    pub fn seed_from_snapshot(&mut self, snap: &[i64], depth: usize)
        requires
            snap@.len() >= 4 * depth,
        ensures
            final(self)@ == seeded(old(self)@, snap@, depth as nat),
    {
        let ghost v0 = self@;
        let n = snap.len();
        for i in 0..depth
            invariant
                snap@.len() >= 4 * depth,
                n == snap@.len(),
                self@ == seeded(v0, snap@, i as nat),
        {
            assert(i * 4 + 3 < snap@.len()) by (nonlinear_arith)
                requires
                    i < depth,
                    snap@.len() >= 4 * depth,
            ;
            assert(i * 4 + 3 < n);
            let ap = snap[i * 4];
            let asz = snap[i * 4 + 1];
            let bp = snap[i * 4 + 2];
            let bsz = snap[i * 4 + 3];
            if ap != ASK_EMPTY && asz > 0 {
                self.asks.insert(ap, asz as u64);
            }
            if bp != BID_EMPTY && bsz > 0 {
                self.bids.insert(bp, bsz as u64);
            }
        }
    }

    /// The snapshot columns of the book's top `depth` levels: for each level,
    /// ask price, ask size, bid price, bid size.
    pub fn top_n(&self, depth: usize) -> (out: Vec<i64>)
        requires
            4 * depth <= usize::MAX,
        ensures
            out@ == top_rows(self@, depth as nat),
    {
        let mut out: Vec<i64> = Vec::with_capacity(depth * 4);
        let mut ask_bound: Option<i64> = None;
        let mut ask_done = false;
        let mut bid_bound: Option<i64> = None;
        let mut bid_done = false;
        for i in 0..depth
            invariant
                out@ == top_rows(self@, i as nat),
                ask_done ==> nth_lowest(self@.asks.dom(), i as nat) is None,
                !ask_done ==> nth_lowest(self@.asks.dom(), i as nat) == least_above(self@.asks.dom(), ask_bound),
                bid_done ==> nth_highest(self@.bids.dom(), i as nat) is None,
                !bid_done ==> nth_highest(self@.bids.dom(), i as nat) == greatest_below(self@.bids.dom(), bid_bound),
        {
            let ask = if ask_done {
                None
            } else {
                least_key_above(&self.asks, ask_bound)
            };
            match ask {
                Some(k) => {
                    let size = *self.asks.get(&k).unwrap();
                    out.push(k);
                    out.push(size as i64);
                    ask_bound = Some(k);
                },
                None => {
                    out.push(ASK_EMPTY);
                    out.push(0);
                    ask_done = true;
                },
            }
            let bid = if bid_done {
                None
            } else {
                greatest_key_below(&self.bids, bid_bound)
            };
            match bid {
                Some(k) => {
                    let size = *self.bids.get(&k).unwrap();
                    out.push(k);
                    out.push(size as i64);
                    bid_bound = Some(k);
                },
                None => {
                    out.push(BID_EMPTY);
                    out.push(0);
                    bid_done = true;
                },
            }
            proof {
                assert(out@ =~= top_rows(self@, (i + 1) as nat));
            }
        }
        out
    }
}

/// The tally of a replay: messages processed, snapshots that disagreed with
/// the book, and the first disagreement.
#[derive(Debug, Clone)]
pub struct ReplayStats {
    pub processed: u64,
    pub mismatches: u64,
    pub first_mismatch_at: Option<u64>,
    pub first_mismatch_ours: Option<Vec<i64>>,
    pub first_mismatch_lobster: Option<Vec<i64>>,
}

impl Default for ReplayStats {
    /// An empty tally.
    fn default() -> (stats: Self)
        ensures
            stats.processed == 0,
            stats.mismatches == 0,
            stats.first_mismatch_at is None,
            stats.first_mismatch_ours is None,
            stats.first_mismatch_lobster is None,
    {
        ReplayStats {
            processed: 0,
            mismatches: 0,
            first_mismatch_at: None,
            first_mismatch_ours: None,
            first_mismatch_lobster: None,
        }
    }
}

impl ReplayStats {
    /// The tally once the first message and snapshot, which only seed the
    /// replay, have been read: one message processed, no disagreement.
    pub fn started() -> (stats: Self)
        ensures
            stats.processed == 1,
            stats.mismatches == 0,
            stats.first_mismatch_at is None,
            stats.first_mismatch_ours is None,
            stats.first_mismatch_lobster is None,
    {
        ReplayStats {
            processed: 1,
            mismatches: 0,
            first_mismatch_at: None,
            first_mismatch_ours: None,
            first_mismatch_lobster: None,
        }
    }
}

/// An empty price-level book.
pub open spec fn empty_view() -> LobsterView {
    LobsterView { bids: Map::empty(), asks: Map::empty() }
}

/// The book one replay step builds: the previous snapshot's top `depth`
/// levels, with the message applied.
pub open spec fn step_book(prev: Seq<i64>, row: MessageRow, depth: nat) -> LobsterView {
    apply_result(seeded(empty_view(), prev, depth), row)
}

/// The columns a replay step compares: all but the deepest level, whose
/// contents the snapshot cannot be relied on for.
pub open spec fn verified_cols(depth: nat) -> int {
    4 * (depth - 1)
}

/// Whether the message of one step fits: its add keeps the level within a
/// `u64` in the book seeded from the previous snapshot.
pub fn step_fits(prev_snapshot: &Vec<i64>, row: &MessageRow, depth: usize) -> (fits: bool)
    requires
        prev_snapshot@.len() >= 4 * depth,
    ensures
        fits == apply_fits(seeded(empty_view(), prev_snapshot@, depth as nat), *row),
{
    let mut book = LobsterBook::new();
    proof {
        assert(book@ == empty_view());
    }
    book.seed_from_snapshot(prev_snapshot.as_slice(), depth);
    if row.event_type != 1 {
        return true;
    }
    let levels = if row.direction == 1 {
        &book.bids
    } else if row.direction == -1 {
        &book.asks
    } else {
        return true;
    };
    match levels.get(&row.price) {
        Some(s) => *s <= u64::MAX - row.size,
        None => true,
    }
}

/// One step of a replay: seeds a fresh book from the previous snapshot's top
/// `depth` levels, applies the message, and compares the book's top levels
/// with the next snapshot on all but the deepest level, counting the message
/// and, on a disagreement, the mismatch (keeping the first one seen).
pub fn replay_step(
    stats: &mut ReplayStats,
    prev_snapshot: &Vec<i64>,
    row: MessageRow,
    snapshot: Vec<i64>,
    depth: usize,
)
    requires
        depth >= 1,
        4 * depth <= usize::MAX,
        prev_snapshot@.len() >= 4 * depth,
        snapshot@.len() >= verified_cols(depth as nat),
        apply_fits(seeded(empty_view(), prev_snapshot@, depth as nat), row),
        old(stats).processed < u64::MAX,
        old(stats).mismatches < u64::MAX,
    ensures
        ({
            let ours = top_rows(step_book(prev_snapshot@, row, depth as nat), depth as nat);
            let vc = verified_cols(depth as nat);
            &&& final(stats).processed == old(stats).processed + 1
            &&& (final(stats).mismatches == old(stats).mismatches + 1 <==> exists|j: int|
                0 <= j < 4 * (depth - 1) && ours[j] != snapshot@[j])
            &&& ours.take(vc) == snapshot@.take(vc) ==> {
                &&& final(stats).mismatches == old(stats).mismatches
                &&& final(stats).first_mismatch_at == old(stats).first_mismatch_at
                &&& final(stats).first_mismatch_ours == old(stats).first_mismatch_ours
                &&& final(stats).first_mismatch_lobster == old(stats).first_mismatch_lobster
            }
            &&& ours.take(vc) != snapshot@.take(vc) ==> {
                &&& final(stats).mismatches == old(stats).mismatches + 1
                &&& old(stats).first_mismatch_at is Some ==> {
                    &&& final(stats).first_mismatch_at == old(stats).first_mismatch_at
                    &&& final(stats).first_mismatch_ours == old(stats).first_mismatch_ours
                    &&& final(stats).first_mismatch_lobster == old(stats).first_mismatch_lobster
                }
                &&& old(stats).first_mismatch_at is None ==> {
                    &&& final(stats).first_mismatch_at == Some((old(stats).processed + 1) as u64)
                    &&& final(stats).first_mismatch_ours matches Some(v) && v@ == ours
                    &&& final(stats).first_mismatch_lobster matches Some(v) && v@ == snapshot@
                }
            }
        }),
{
    let mut book = LobsterBook::new();
    proof {
        assert(book@ == empty_view());
    }
    book.seed_from_snapshot(prev_snapshot.as_slice(), depth);
    book.apply(row);
    let our_top = book.top_n(depth);
    stats.processed = stats.processed + 1;
    let verify_cols = (depth - 1) * 4;
    let mut same = true;
    let mut j: usize = 0;
    proof {
        lemma_top_rows_len(book@, depth as nat);
        assert(our_top@.take(0) =~= snapshot@.take(0));
    }
    while j < verify_cols
        invariant
            verify_cols == verified_cols(depth as nat),
            our_top@.len() == 4 * depth,
            snapshot@.len() >= verify_cols,
            j <= verify_cols,
            same == (our_top@.take(j as int) == snapshot@.take(j as int)),
        decreases verify_cols - j,
    {
        let ghost before = same;
        if our_top[j] != snapshot[j] {
            same = false;
        }
        proof {
            let a = our_top@.take(j + 1);
            let b = snapshot@.take(j + 1);
            assert(a.take(j as int) =~= our_top@.take(j as int));
            assert(b.take(j as int) =~= snapshot@.take(j as int));
            if same {
                assert(a =~= b);
            } else if !before {
                assert(a.take(j as int) != b.take(j as int));
            } else {
                assert(a[j as int] != b[j as int]);
            }
        }
        j = j + 1;
    }
    proof {
        let ours = top_rows(step_book(prev_snapshot@, row, depth as nat), depth as nat);
        assert(our_top@ == ours);
        law_step_compares_all_but_deepest(our_top@, snapshot@, depth as nat);
        if !same {
            let j = choose|j: int| 0 <= j < 4 * (depth - 1) && our_top@[j] != snapshot@[j];
            assert(0 <= j < 4 * (depth - 1) && ours[j] != snapshot@[j]);
        } else {
            assert(!exists|j: int| 0 <= j < 4 * (depth - 1) && ours[j] != snapshot@[j]);
        }
    }
    if !same {
        stats.mismatches = stats.mismatches + 1;
        if stats.first_mismatch_at.is_none() {
            stats.first_mismatch_at = Some(stats.processed);
            stats.first_mismatch_ours = Some(our_top);
            stats.first_mismatch_lobster = Some(snapshot);
        }
    }
}

/// Where the first disagreement of two snapshot rows lies: the first column
/// (within the shorter row) at which they differ, none when they agree there.
pub fn first_difference(ours: &Vec<i64>, theirs: &Vec<i64>) -> (r: Option<usize>)
    ensures
        match r {
            Some(i) => {
                &&& i < ours@.len()
                &&& i < theirs@.len()
                &&& ours@[i as int] != theirs@[i as int]
                &&& forall|j: int| 0 <= j < i ==> ours@[j] == theirs@[j]
            },
            None => forall|j: int| 0 <= j < ours@.len() && j < theirs@.len() ==> ours@[j] == theirs@[j],
        },
{
    let n = if ours.len() < theirs.len() {
        ours.len()
    } else {
        theirs.len()
    };
    let mut i: usize = 0;
    while i < n
        invariant
            n <= ours@.len(),
            n <= theirs@.len(),
            n == ours@.len() || n == theirs@.len(),
            i <= n,
            forall|j: int| 0 <= j < i ==> ours@[j] == theirs@[j],
        decreases n - i,
    {
        if ours[i] != theirs[i] {
            return Some(i);
        }
        i = i + 1;
    }
    None
}

/// The four columns of a snapshot level.
#[derive(Debug, Clone, Copy, PartialEq, Eq, Structural)]
pub enum Field {
    AskPrice,
    AskSize,
    BidPrice,
    BidSize,
}

/// The level (counting from one) and the field of snapshot column `col`.
pub fn column_of(col: usize) -> (r: (usize, Field))
    ensures
        r.0 == col / 4 + 1,
        r.1 == match col % 4 {
            0 => Field::AskPrice,
            1 => Field::AskSize,
            2 => Field::BidPrice,
            _ => Field::BidSize,
        },
{
    let field = match col % 4 {
        0 => Field::AskPrice,
        1 => Field::AskSize,
        2 => Field::BidPrice,
        _ => Field::BidSize,
    };
    (col / 4 + 1, field)
}

/// The side a message acts on, before or after it: bids for direction 1,
/// asks otherwise.
pub open spec fn message_side(v: LobsterView, row: MessageRow) -> Map<i64, u64> {
    if row.direction == 1 {
        v.bids
    } else {
        v.asks
    }
}

/// The side a message leaves alone: asks for direction 1, bids otherwise.
pub open spec fn other_side(v: LobsterView, row: MessageRow) -> Map<i64, u64> {
    if row.direction == 1 {
        v.asks
    } else {
        v.bids
    }
}

/// Law: a cancel, delete or execution (types 2 to 4) on a bid or ask takes
/// the message's size off the level at its price. A level holding more than
/// that keeps the difference; one holding that much or less is removed; a
/// price with no level, every other price, and the other side are untouched.
pub proof fn law_apply_reduces(v: LobsterView, row: MessageRow)
    requires
        2 <= row.event_type <= 4,
        row.direction == 1 || row.direction == -1,
    ensures
        ({
            let before = message_side(v, row);
            let after = message_side(apply_result(v, row), row);
            let p = row.price;
            &&& before.contains_key(p) && before[p] > row.size ==> after.contains_key(p) && after[p] == before[p]
                - row.size
            &&& before.contains_key(p) && before[p] <= row.size ==> !after.contains_key(p)
            &&& !before.contains_key(p) ==> !after.contains_key(p)
            &&& forall|k: i64| k != p ==> (#[trigger] after.contains_key(k) <==> before.contains_key(k))
            &&& forall|k: i64| k != p && before.contains_key(k) ==> #[trigger] after[k] == before[k]
            &&& other_side(apply_result(v, row), row) == other_side(v, row)
        }),
{
}

/// Law: an add (type 1) on a bid or ask grows the level at its price by the
/// message's size, creating it if there was none; every other price and the
/// other side are untouched.
pub proof fn law_apply_adds(v: LobsterView, row: MessageRow)
    requires
        row.event_type == 1,
        row.direction == 1 || row.direction == -1,
        apply_fits(v, row),
    ensures
        ({
            let before = message_side(v, row);
            let after = message_side(apply_result(v, row), row);
            let p = row.price;
            &&& after.contains_key(p)
            &&& before.contains_key(p) ==> after[p] == before[p] + row.size
            &&& !before.contains_key(p) ==> after[p] == row.size
            &&& forall|k: i64| k != p ==> (#[trigger] after.contains_key(k) <==> before.contains_key(k))
            &&& forall|k: i64| k != p && before.contains_key(k) ==> #[trigger] after[k] == before[k]
            &&& other_side(apply_result(v, row), row) == other_side(v, row)
        }),
{
}

/// Law: a message of any other type or direction leaves the book as it was.
pub proof fn law_apply_ignores(v: LobsterView, row: MessageRow)
    requires
        row.event_type < 1 || row.event_type > 4 || (row.direction != 1 && row.direction != -1),
    ensures
        apply_result(v, row) == v,
{
}

/// Law: a replay step of depth `depth` compares every level but the deepest:
/// the book's top and the snapshot agree on the compared columns exactly when
/// they agree on each column below `4 * (depth - 1)`.
pub proof fn law_step_compares_all_but_deepest(ours: Seq<i64>, snapshot: Seq<i64>, depth: nat)
    requires
        depth >= 1,
        ours.len() == 4 * depth,
        snapshot.len() >= 4 * (depth - 1),
    ensures
        ours.take(verified_cols(depth)) == snapshot.take(verified_cols(depth)) <==> forall|j: int|
            0 <= j < 4 * (depth - 1) ==> ours[j] == snapshot[j],
{
    let n = 4 * (depth - 1);
    assert(verified_cols(depth) == n);
    if forall|j: int| 0 <= j < n ==> ours[j] == snapshot[j] {
        assert(ours.take(n) =~= snapshot.take(n));
    }
    if ours.take(n) == snapshot.take(n) {
        assert forall|j: int| 0 <= j < n implies ours[j] == snapshot[j] by {
            assert(ours.take(n)[j] == snapshot.take(n)[j]);
        }
    }
}

/// The top `n` levels make `4 * n` columns.
pub proof fn lemma_top_rows_len(v: LobsterView, n: nat)
    ensures
        top_rows(v, n).len() == 4 * n,
    decreases n,
{
    if n > 0 {
        lemma_top_rows_len(v, (n - 1) as nat);
    }
}

/// Why a snapshot line is not a row of integers.
#[derive(Debug, Clone, Copy, PartialEq, Eq)]
pub enum RowError {
    /// The line has `got` columns where `expected` were wanted.
    Columns { expected: usize, got: usize },
    /// A column is not an integer.
    Integer(IntError),
}

/// The columns read as integers, in order; the first column that is not an
/// integer decides the error.
pub open spec fn parse_columns(fields: Seq<Seq<char>>) -> Result<Seq<i64>, IntError>
    decreases fields.len(),
{
    if fields.len() == 0 {
        Ok(seq![])
    } else {
        match parse_i64(trim(fields[0])) {
            Err(e) => Err(e),
            Ok(v) => match parse_columns(fields.drop_first()) {
                Ok(vs) => Ok(seq![v] + vs),
                Err(e) => Err(e),
            },
        }
    }
}

/// A snapshot line read as `4 * depth` integers: the line is split at its
/// commas; a wrong number of columns is an error before any column is read;
/// each column is trimmed and read as an `i64`.
pub open spec fn parse_row_result(line: Seq<char>, depth: nat) -> Result<Seq<i64>, RowError> {
    let fields = split_commas(line);
    if fields.len() != 4 * depth {
        Err(RowError::Columns { expected: (4 * depth) as usize, got: fields.len() as usize })
    } else {
        match parse_columns(fields) {
            Ok(vs) => Ok(vs),
            Err(e) => Err(RowError::Integer(e)),
        }
    }
}

/// The pieces of `s` that the bounds `b` delimit.
pub open spec fn pieces(s: Seq<char>, b: Seq<(usize, usize)>) -> Seq<Seq<char>> {
    b.map_values(|p: (usize, usize)| s.subrange(p.0 as int, p.1 as int))
}

/// Reads a snapshot line as `4 * depth` integers.
pub fn parse_row(line: &str, depth: usize) -> (r: Result<Vec<i64>, RowError>)
    requires
        4 * depth <= usize::MAX,
        line@.len() < usize::MAX,
    ensures
        match r {
            Ok(v) => parse_row_result(line@, depth as nat) == Ok::<Seq<i64>, RowError>(v@),
            Err(e) => parse_row_result(line@, depth as nat) == Err::<Seq<i64>, RowError>(e),
        },
{
    let mut chars: Vec<char> = Vec::new();
    for c in it: line.chars()
        invariant
            chars@ == it.seq().take(it.index() as int),
    {
        proof {
            assert(it.seq().take(it.index() + 1) =~= chars@.push(c));
        }
        chars.push(c);
    }
    assert(chars@ =~= line@);
    let n = chars.len();
    let mut bounds: Vec<(usize, usize)> = Vec::new();
    let mut start: usize = 0;
    let mut i: usize = 0;
    assert(chars@.take(0) =~= Seq::<char>::empty());
    assert(split_commas(chars@.take(0)) =~= pieces(chars@, bounds@) + seq![chars@.subrange(0, 0)]);
    while i < n
        invariant
            n == chars@.len(),
            n < usize::MAX,
            start <= i <= n,
            bounds@.len() <= i,
            forall|j: int| 0 <= j < bounds@.len() ==> (#[trigger] bounds@[j]).0 <= bounds@[j].1 <= n,
            split_commas(chars@.take(i as int)) == pieces(chars@, bounds@) + seq![chars@.subrange(start as int, i as int)],
        decreases n - i,
    {
        let ghost before = pieces(chars@, bounds@);
        assert(chars@.take(i + 1).drop_last() =~= chars@.take(i as int));
        assert(chars@.take(i + 1).last() == chars@[i as int]);
        if chars[i] == ',' {
            let ghost s0 = start;
            bounds.push((start, i));
            start = i + 1;
            proof {
                assert(pieces(chars@, bounds@) =~= before.push(chars@.subrange(s0 as int, i as int)));
                assert(chars@.subrange(start as int, (i + 1) as int) =~= Seq::<char>::empty());
                assert(split_commas(chars@.take(i + 1)) == split_commas(chars@.take(i as int)).push(Seq::<char>::empty()));
                assert(split_commas(chars@.take(i + 1)) =~= pieces(chars@, bounds@) + seq![chars@.subrange(start as int, (i + 1) as int)]);
            }
        } else {
            proof {
                assert(chars@.subrange(start as int, (i + 1) as int) =~= chars@.subrange(start as int, i as int).push(chars@[i as int]));
                assert(split_commas(chars@.take(i + 1)) =~= pieces(chars@, bounds@) + seq![chars@.subrange(start as int, (i + 1) as int)]);
            }
        }
        i = i + 1;
    }
    bounds.push((start, n));
    proof {
        assert(chars@.take(n as int) =~= chars@);
        assert(split_commas(chars@) =~= pieces(chars@, bounds@));
    }
    let expected = depth * 4;
    if bounds.len() != expected {
        return Err(RowError::Columns { expected, got: bounds.len() });
    }
    let ghost fields = pieces(chars@, bounds@);
    let mut out: Vec<i64> = Vec::new();
    let mut j: usize = 0;
    assert(fields.skip(0) =~= fields);
    assert(out@ + Seq::<i64>::empty() =~= out@);
    while j < bounds.len()
        invariant
            fields == pieces(chars@, bounds@),
            split_commas(line@) == fields,
            fields.len() == 4 * depth,
            j <= bounds@.len(),
            forall|k: int| 0 <= k < bounds@.len() ==> (#[trigger] bounds@[k]).0 <= bounds@[k].1 <= chars@.len(),
            parse_columns(fields) == match parse_columns(fields.skip(j as int)) {
                Ok(vs) => Ok(out@ + vs),
                Err(e) => Err::<Seq<i64>, IntError>(e),
            },
        decreases bounds@.len() - j,
    {
        let (a, b) = bounds[j];
        assert(bounds@[j as int].0 <= bounds@[j as int].1 <= chars@.len());
        let (x, y) = trim_bounds(&chars, a, b);
        proof {
            assert(fields.skip(j as int)[0] == fields[j as int]);
            assert(fields.skip(j as int).drop_first() =~= fields.skip(j + 1));
        }
        match parse_int(&chars, x, y) {
            Ok(v) => {
                proof {
                    match parse_columns(fields.skip(j + 1)) {
                        Ok(vs) => {
                            assert(out@ + (seq![v] + vs) =~= out@.push(v) + vs);
                        },
                        Err(e) => {},
                    }
                }
                out.push(v);
            },
            Err(e) => {
                return Err(RowError::Integer(e));
            },
        }
        j = j + 1;
    }
    proof {
        assert(fields.skip(j as int) =~= Seq::<Seq<char>>::empty());
        assert(out@ + Seq::<i64>::empty() =~= out@);
    }
    Ok(out)
}

/// The ask price in level `i` of a snapshot row.
pub open spec fn ask_price(snap: Seq<i64>, i: int) -> i64 {
    snap[4 * i]
}

/// The ask size in level `i` of a snapshot row.
pub open spec fn ask_size(snap: Seq<i64>, i: int) -> i64 {
    snap[4 * i + 1]
}

/// The bid price in level `i` of a snapshot row.
pub open spec fn bid_price(snap: Seq<i64>, i: int) -> i64 {
    snap[4 * i + 2]
}

/// The bid size in level `i` of a snapshot row.
pub open spec fn bid_size(snap: Seq<i64>, i: int) -> i64 {
    snap[4 * i + 3]
}

/// A snapshot row of `depth` levels as LOBSTER publishes it: `4 * depth`
/// columns; the asks that are there come first, at strictly rising prices and
/// positive sizes, and the levels after them hold the empty ask marker and
/// size zero; likewise the bids, at strictly falling prices.
pub open spec fn well_formed_snapshot(snap: Seq<i64>, depth: nat) -> bool {
    &&& snap.len() == 4 * depth
    &&& forall|i: int|
        #![trigger ask_price(snap, i)]
        #![trigger bid_price(snap, i)]
        0 <= i < depth ==> {
            &&& (ask_price(snap, i) != ASK_EMPTY ==> ask_size(snap, i) > 0)
            &&& (ask_price(snap, i) == ASK_EMPTY ==> ask_size(snap, i) == 0)
            &&& (bid_price(snap, i) != BID_EMPTY ==> bid_size(snap, i) > 0)
            &&& (bid_price(snap, i) == BID_EMPTY ==> bid_size(snap, i) == 0)
        }
    &&& forall|i: int, j: int|
        #![trigger ask_price(snap, i), ask_price(snap, j)]
        #![trigger bid_price(snap, i), bid_price(snap, j)]
        0 <= i < j < depth ==> {
            &&& (ask_price(snap, j) != ASK_EMPTY ==> ask_price(snap, i) != ASK_EMPTY && ask_price(snap, i)
                < ask_price(snap, j))
            &&& (bid_price(snap, j) != BID_EMPTY ==> bid_price(snap, i) != BID_EMPTY && bid_price(snap, i) > bid_price(snap, j))
        }
}

proof fn lemma_seeded_shape(snap: Seq<i64>, depth: nat, m: nat)
    requires
        well_formed_snapshot(snap, depth),
        m <= depth,
    ensures
        ({
            let v = seeded(empty_view(), snap, m);
            &&& v.asks.dom().finite()
            &&& v.bids.dom().finite()
            &&& forall|k: i64| #[trigger]
                v.asks.contains_key(k) ==> exists|i: int| 0 <= i < m && ask_price(snap, i) != ASK_EMPTY && ask_price(snap, i) == k
            &&& forall|i: int| 0 <= i < m && ask_price(snap, i) != ASK_EMPTY ==> v.asks.contains_key(#[trigger] ask_price(snap, i))
                && v.asks[ask_price(snap, i)] == ask_size(snap, i) as u64
            &&& forall|k: i64| #[trigger]
                v.bids.contains_key(k) ==> exists|i: int| 0 <= i < m && bid_price(snap, i) != BID_EMPTY && bid_price(snap, i) == k
            &&& forall|i: int| 0 <= i < m && bid_price(snap, i) != BID_EMPTY ==> v.bids.contains_key(#[trigger] bid_price(snap, i))
                && v.bids[bid_price(snap, i)] == bid_size(snap, i) as u64
        }),
    decreases m,
{
    if m > 0 {
        let n = (m - 1) as nat;
        lemma_seeded_shape(snap, depth, n);
        let prev = seeded(empty_view(), snap, n);
        let v = seeded(empty_view(), snap, m);
        assert(v == seed_level(prev, snap, n as int));
        let ni = n as int;
        assert(ask_price(snap, ni) != ASK_EMPTY ==> ask_size(snap, ni) > 0);
        assert(bid_price(snap, ni) != BID_EMPTY ==> bid_size(snap, ni) > 0);
        assert forall|k: i64| #[trigger] v.asks.contains_key(k) implies exists|i: int|
            0 <= i < m && ask_price(snap, i) != ASK_EMPTY && ask_price(snap, i) == k by {
            if k == ask_price(snap, ni) && ask_price(snap, ni) != ASK_EMPTY {
                assert(0 <= n < m && ask_price(snap, n as int) == k);
            } else {
                assert(prev.asks.contains_key(k));
            }
        }
        assert forall|i: int| 0 <= i < m && ask_price(snap, i) != ASK_EMPTY implies v.asks.contains_key(
            #[trigger] ask_price(snap, i),
        ) && v.asks[ask_price(snap, i)] == ask_size(snap, i) as u64 by {
            if i < n {
                assert(ask_price(snap, i) < ask_price(snap, n as int) || ask_price(snap, n as int) == ASK_EMPTY);
            }
        }
        assert forall|k: i64| #[trigger] v.bids.contains_key(k) implies exists|i: int|
            0 <= i < m && bid_price(snap, i) != BID_EMPTY && bid_price(snap, i) == k by {
            if k == bid_price(snap, ni) && bid_price(snap, ni) != BID_EMPTY {
                assert(0 <= n < m && bid_price(snap, n as int) == k);
            } else {
                assert(prev.bids.contains_key(k));
            }
        }
        assert forall|i: int| 0 <= i < m && bid_price(snap, i) != BID_EMPTY implies v.bids.contains_key(
            #[trigger] bid_price(snap, i),
        ) && v.bids[bid_price(snap, i)] == bid_size(snap, i) as u64 by {
            if i < n {
                assert(bid_price(snap, i) > bid_price(snap, n as int) || bid_price(snap, n as int) == BID_EMPTY);
            }
        }
    }
}

proof fn lemma_seeded_levels(snap: Seq<i64>, depth: nat, i: nat)
    requires
        well_formed_snapshot(snap, depth),
        i < depth,
    ensures
        nth_lowest(seeded(empty_view(), snap, depth).asks.dom(), i) == if ask_price(snap, i as int) != ASK_EMPTY {
            Some(ask_price(snap, i as int))
        } else {
            None::<i64>
        },
        nth_highest(seeded(empty_view(), snap, depth).bids.dom(), i) == if bid_price(snap, i as int) != BID_EMPTY {
            Some(bid_price(snap, i as int))
        } else {
            None::<i64>
        },
    decreases i,
{
    lemma_seeded_shape(snap, depth, depth);
    let v = seeded(empty_view(), snap, depth);
    let a = v.asks.dom();
    let b = v.bids.dom();
    let ii = i as int;
    let ap = ask_price(snap, ii);
    let bp = bid_price(snap, ii);
    if i > 0 {
        lemma_seeded_levels(snap, depth, (i - 1) as nat);
    }
    let pa = ask_price(snap, ii - 1);
    let pb = bid_price(snap, ii - 1);
    // asks
    if ap != ASK_EMPTY {
        if i > 0 {
            assert(pa != ASK_EMPTY && pa < ap);
        }
        let bound = if i == 0 { None } else { Some(pa) };
        assert forall|j: i64| #[trigger] a.contains(j) && crate::keys::above(bound, j) implies ap <= j by {
            let t = choose|t: int| 0 <= t < depth && ask_price(snap, t) != ASK_EMPTY && ask_price(snap, t) == j;
            if t < ii {
                assert(ask_price(snap, t) < ask_price(snap, ii));
                if t < ii - 1 {
                    assert(ask_price(snap, t) < ask_price(snap, ii - 1));
                }
            } else if t > ii {
                assert(ask_price(snap, ii) < ask_price(snap, t));
            }
        }
        assert(is_least_above(a, bound, ap));
        lemma_least_above_unique(a, bound, ap);
    } else {
        if i == 0 {
            assert forall|j: i64| !(#[trigger] a.contains(j)) by {
                if a.contains(j) {
                    let t = choose|t: int| 0 <= t < depth && ask_price(snap, t) != ASK_EMPTY && ask_price(snap, t) == j;
                    if t > 0 {
                        assert(ask_price(snap, 0int) != ASK_EMPTY);
                    }
                }
            }
        } else if pa != ASK_EMPTY {
            assert forall|j: i64| !(#[trigger] is_least_above(a, Some(pa), j)) by {
                if a.contains(j) && pa < j {
                    let t = choose|t: int| 0 <= t < depth && ask_price(snap, t) != ASK_EMPTY && ask_price(snap, t) == j;
                    if t >= ii {
                        if t > ii {
                            assert(ask_price(snap, ii) != ASK_EMPTY);
                        }
                    } else if t < ii - 1 {
                        assert(ask_price(snap, t) < ask_price(snap, ii - 1));
                    }
                }
            }
        }
    }
    // bids
    if bp != BID_EMPTY {
        if i > 0 {
            assert(pb != BID_EMPTY && pb > bp);
        }
        let bound = if i == 0 { None } else { Some(pb) };
        assert forall|j: i64| #[trigger] b.contains(j) && crate::keys::below(bound, j) implies j <= bp by {
            let t = choose|t: int| 0 <= t < depth && bid_price(snap, t) != BID_EMPTY && bid_price(snap, t) == j;
            if t < ii {
                assert(bid_price(snap, t) > bid_price(snap, ii));
                if t < ii - 1 {
                    assert(bid_price(snap, t) > bid_price(snap, ii - 1));
                }
            } else if t > ii {
                assert(bid_price(snap, ii) > bid_price(snap, t));
            }
        }
        assert(is_greatest_below(b, bound, bp));
        lemma_greatest_below_unique(b, bound, bp);
    } else {
        if i == 0 {
            assert forall|j: i64| !(#[trigger] b.contains(j)) by {
                if b.contains(j) {
                    let t = choose|t: int| 0 <= t < depth && bid_price(snap, t) != BID_EMPTY && bid_price(snap, t) == j;
                    if t > 0 {
                        assert(bid_price(snap, 0int) != BID_EMPTY);
                    }
                }
            }
        } else if pb != BID_EMPTY {
            assert forall|j: i64| !(#[trigger] is_greatest_below(b, Some(pb), j)) by {
                if b.contains(j) && j < pb {
                    let t = choose|t: int| 0 <= t < depth && bid_price(snap, t) != BID_EMPTY && bid_price(snap, t) == j;
                    if t >= ii {
                        if t > ii {
                            assert(bid_price(snap, ii) != BID_EMPTY);
                        }
                    } else if t < ii - 1 {
                        assert(bid_price(snap, t) > bid_price(snap, ii - 1));
                    }
                }
            }
        }
    }
}

/// Law: seeding an empty book from a well-formed snapshot and reading its top
/// levels back gives the snapshot, so a replay step compares only what the
/// message changed.
pub proof fn law_snapshot_round_trip(snap: Seq<i64>, depth: nat)
    requires
        well_formed_snapshot(snap, depth),
    ensures
        top_rows(seeded(empty_view(), snap, depth), depth) == snap,
{
    lemma_seeded_shape(snap, depth, depth);
    let v = seeded(empty_view(), snap, depth);
    assert forall|n: nat| n <= depth implies #[trigger] top_rows(v, n) =~= snap.take(4 * (n as int)) by {
        lemma_top_rows_prefix(snap, depth, n);
    }
    assert(top_rows(v, depth) =~= snap.take(4 * (depth as int)));
    assert(snap.take(4 * (depth as int)) =~= snap);
}

proof fn lemma_top_rows_prefix(snap: Seq<i64>, depth: nat, n: nat)
    requires
        well_formed_snapshot(snap, depth),
        n <= depth,
    ensures
        top_rows(seeded(empty_view(), snap, depth), n) =~= snap.take(4 * (n as int)),
    decreases n,
{
    if n > 0 {
        let m = (n - 1) as nat;
        lemma_top_rows_prefix(snap, depth, m);
        lemma_seeded_levels(snap, depth, m);
        lemma_seeded_shape(snap, depth, depth);
        let v = seeded(empty_view(), snap, depth);
        let mi = m as int;
        assert(ask_price(snap, mi) != ASK_EMPTY ==> ask_size(snap, mi) > 0);
        assert(ask_price(snap, mi) == ASK_EMPTY ==> ask_size(snap, mi) == 0);
        assert(bid_price(snap, mi) != BID_EMPTY ==> bid_size(snap, mi) > 0);
        assert(bid_price(snap, mi) == BID_EMPTY ==> bid_size(snap, mi) == 0);
        let row = top_row(v, m);
        assert(row =~= snap.subrange(4 * mi, 4 * mi + 4));
        assert(snap.take(4 * (n as int)) =~= snap.take(4 * mi) + snap.subrange(4 * mi, 4 * mi + 4));
    }
}

/// Law: a deeper view of the book extends a shallower one: the top `k`
/// levels are the first `4 * k` columns of the top `d` levels, for `k <= d`.
pub proof fn law_top_rows_extend(v: LobsterView, k: nat, d: nat)
    requires
        k <= d,
    ensures
        top_rows(v, d).len() == 4 * d,
        top_rows(v, d).take(4 * (k as int)) == top_rows(v, k),
    decreases d,
{
    lemma_top_rows_len(v, d);
    lemma_top_rows_len(v, k);
    if k < d {
        let m = (d - 1) as nat;
        law_top_rows_extend(v, k, m);
        lemma_top_rows_len(v, m);
        assert(top_rows(v, d).take(4 * (k as int)) =~= top_rows(v, m).take(4 * (k as int)));
    } else {
        assert(top_rows(v, d).take(4 * (k as int)) =~= top_rows(v, k));
    }
}

proof fn lemma_lowest_chain(s: Set<i64>, i: nat)
    ensures
        nth_lowest(s, i) matches Some(k) ==> {
            &&& s.contains(k)
            &&& forall|t: nat| t < i ==> (#[trigger] nth_lowest(s, t) matches Some(kt) && kt < k)
            &&& forall|j: i64| #[trigger] s.contains(j) && j <= k ==> exists|t: nat| t <= i && #[trigger] nth_lowest(s, t) == Some(j)
        },
    decreases i,
{
    if let Some(k) = nth_lowest(s, i) {
        if i == 0 {
            assert(is_least_above(s, None, k));
            assert forall|j: i64| #[trigger] s.contains(j) && j <= k implies exists|t: nat| t <= i && #[trigger] nth_lowest(s, t) == Some(j) by {
                assert(crate::keys::above(None, j));
                assert(nth_lowest(s, 0) == Some(j));
            }
        } else {
            let m = (i - 1) as nat;
            lemma_lowest_chain(s, m);
            let kp = nth_lowest(s, m).unwrap();
            assert(is_least_above(s, Some(kp), k));
            assert forall|t: nat| t < i implies (#[trigger] nth_lowest(s, t) matches Some(kt) && kt < k) by {
                if t < m {
                    assert(nth_lowest(s, t) matches Some(kt) && kt < kp);
                }
            }
            assert forall|j: i64| #[trigger] s.contains(j) && j <= k implies exists|t: nat| t <= i && #[trigger] nth_lowest(s, t) == Some(j) by {
                if j <= kp {
                    let t = choose|t: nat| t <= m && #[trigger] nth_lowest(s, t) == Some(j);
                    assert(t <= i);
                } else {
                    assert(crate::keys::above(Some(kp), j));
                    assert(nth_lowest(s, i) == Some(j));
                }
            }
        }
    }
}

proof fn lemma_lowest_step(s: Set<i64>, i: nat)
    requires
        s.finite(),
    ensures
        nth_lowest(s, i) is Some || forall|j: i64| #[trigger] s.contains(j) ==> exists|t: nat| t < i && #[trigger] nth_lowest(s, t) == Some(j),
    decreases i,
{
    if nth_lowest(s, i) is None {
        if i == 0 {
            assert forall|j: i64| !#[trigger] s.contains(j) by {
                if s.contains(j) {
                    crate::keys::lemma_least_above_exists(s, None, j);
                }
            }
        } else {
            let m = (i - 1) as nat;
            lemma_lowest_step(s, m);
            if let Some(k) = nth_lowest(s, m) {
                lemma_lowest_chain(s, m);
                assert forall|j: i64| #[trigger] s.contains(j) implies exists|t: nat| t < i && #[trigger] nth_lowest(s, t) == Some(j) by {
                    if !(j <= k) {
                        crate::keys::lemma_least_above_exists(s, Some(k), j);
                    }
                    let t = choose|t: nat| t <= m && #[trigger] nth_lowest(s, t) == Some(j);
                    assert(t < i);
                }
            } else {
                assert forall|j: i64| #[trigger] s.contains(j) implies exists|t: nat| t < i && #[trigger] nth_lowest(s, t) == Some(j) by {
                    let t = choose|t: nat| t < m && #[trigger] nth_lowest(s, t) == Some(j);
                    assert(t < i);
                }
            }
        }
    }
}

proof fn lemma_lowest_covers(s: Set<i64>, d: nat)
    requires
        s.finite(),
        s.len() <= d,
    ensures
        forall|j: i64| #[trigger] s.contains(j) ==> exists|t: nat| t < d && #[trigger] nth_lowest(s, t) == Some(j),
{
    if nth_lowest(s, d) is Some {
        lemma_lowest_chain(s, d);
        let q = Seq::new(d + 1, |t: int| nth_lowest(s, t as nat).unwrap());
        assert forall|a: int, b: int| 0 <= a < q.len() && 0 <= b < q.len() && a != b implies q[a] != q[b] by {
            if a < b {
                lemma_lowest_chain(s, b as nat);
            } else {
                lemma_lowest_chain(s, a as nat);
            }
        }
        assert(q.no_duplicates());
        q.unique_seq_to_set();
        assert forall|x: i64| q.to_set().contains(x) implies s.contains(x) by {
            let t = choose|t: int| 0 <= t < q.len() && q[t] == x;
            lemma_lowest_chain(s, t as nat);
        }
        vstd::set_lib::lemma_len_subset(q.to_set(), s);
    }
    lemma_lowest_step(s, d);
}

proof fn lemma_highest_chain(s: Set<i64>, i: nat)
    ensures
        nth_highest(s, i) matches Some(k) ==> {
            &&& s.contains(k)
            &&& forall|t: nat| t < i ==> (#[trigger] nth_highest(s, t) matches Some(kt) && kt > k)
            &&& forall|j: i64| #[trigger] s.contains(j) && j >= k ==> exists|t: nat| t <= i && #[trigger] nth_highest(s, t) == Some(j)
        },
    decreases i,
{
    if let Some(k) = nth_highest(s, i) {
        if i == 0 {
            assert(is_greatest_below(s, None, k));
            assert forall|j: i64| #[trigger] s.contains(j) && j >= k implies exists|t: nat| t <= i && #[trigger] nth_highest(s, t) == Some(j) by {
                assert(crate::keys::below(None, j));
                assert(nth_highest(s, 0) == Some(j));
            }
        } else {
            let m = (i - 1) as nat;
            lemma_highest_chain(s, m);
            let kp = nth_highest(s, m).unwrap();
            assert(is_greatest_below(s, Some(kp), k));
            assert forall|t: nat| t < i implies (#[trigger] nth_highest(s, t) matches Some(kt) && kt > k) by {
                if t < m {
                    assert(nth_highest(s, t) matches Some(kt) && kt > kp);
                }
            }
            assert forall|j: i64| #[trigger] s.contains(j) && j >= k implies exists|t: nat| t <= i && #[trigger] nth_highest(s, t) == Some(j) by {
                if j >= kp {
                    let t = choose|t: nat| t <= m && #[trigger] nth_highest(s, t) == Some(j);
                    assert(t <= i);
                } else {
                    assert(crate::keys::below(Some(kp), j));
                    assert(nth_highest(s, i) == Some(j));
                }
            }
        }
    }
}

proof fn lemma_highest_step(s: Set<i64>, i: nat)
    requires
        s.finite(),
    ensures
        nth_highest(s, i) is Some || forall|j: i64| #[trigger] s.contains(j) ==> exists|t: nat| t < i && #[trigger] nth_highest(s, t) == Some(j),
    decreases i,
{
    if nth_highest(s, i) is None {
        if i == 0 {
            assert forall|j: i64| !#[trigger] s.contains(j) by {
                if s.contains(j) {
                    crate::keys::lemma_greatest_below_exists(s, None, j);
                }
            }
        } else {
            let m = (i - 1) as nat;
            lemma_highest_step(s, m);
            if let Some(k) = nth_highest(s, m) {
                lemma_highest_chain(s, m);
                assert forall|j: i64| #[trigger] s.contains(j) implies exists|t: nat| t < i && #[trigger] nth_highest(s, t) == Some(j) by {
                    if !(j >= k) {
                        crate::keys::lemma_greatest_below_exists(s, Some(k), j);
                    }
                    let t = choose|t: nat| t <= m && #[trigger] nth_highest(s, t) == Some(j);
                    assert(t < i);
                }
            } else {
                assert forall|j: i64| #[trigger] s.contains(j) implies exists|t: nat| t < i && #[trigger] nth_highest(s, t) == Some(j) by {
                    let t = choose|t: nat| t < m && #[trigger] nth_highest(s, t) == Some(j);
                    assert(t < i);
                }
            }
        }
    }
}

proof fn lemma_highest_covers(s: Set<i64>, d: nat)
    requires
        s.finite(),
        s.len() <= d,
    ensures
        forall|j: i64| #[trigger] s.contains(j) ==> exists|t: nat| t < d && #[trigger] nth_highest(s, t) == Some(j),
{
    if nth_highest(s, d) is Some {
        lemma_highest_chain(s, d);
        let q = Seq::new(d + 1, |t: int| nth_highest(s, t as nat).unwrap());
        assert forall|a: int, b: int| 0 <= a < q.len() && 0 <= b < q.len() && a != b implies q[a] != q[b] by {
            if a < b {
                lemma_highest_chain(s, b as nat);
            } else {
                lemma_highest_chain(s, a as nat);
            }
        }
        assert(q.no_duplicates());
        q.unique_seq_to_set();
        assert forall|x: i64| q.to_set().contains(x) implies s.contains(x) by {
            let t = choose|t: int| 0 <= t < q.len() && q[t] == x;
            lemma_highest_chain(s, t as nat);
        }
        vstd::set_lib::lemma_len_subset(q.to_set(), s);
    }
    lemma_highest_step(s, d);
}

/// A book whose snapshot of depth `d` shows all of it: at most `d` levels a
/// side, every size positive and within an `i64`, and no level at an empty
/// marker's price.
pub open spec fn fits_snapshot(v: LobsterView, d: nat) -> bool {
    &&& v.asks.dom().finite()
    &&& v.bids.dom().finite()
    &&& v.asks.dom().len() <= d
    &&& v.bids.dom().len() <= d
    &&& !v.asks.contains_key(ASK_EMPTY)
    &&& !v.bids.contains_key(BID_EMPTY)
    &&& forall|k: i64| #[trigger] v.asks.contains_key(k) ==> 1 <= v.asks[k] <= i64::MAX
    &&& forall|k: i64| #[trigger] v.bids.contains_key(k) ==> 1 <= v.bids[k] <= i64::MAX
}

proof fn lemma_top_rows_at(v: LobsterView, d: nat, i: nat)
    requires
        i < d,
    ensures
        ask_price(top_rows(v, d), i as int) == top_row(v, i)[0],
        ask_size(top_rows(v, d), i as int) == top_row(v, i)[1],
        bid_price(top_rows(v, d), i as int) == top_row(v, i)[2],
        bid_size(top_rows(v, d), i as int) == top_row(v, i)[3],
    decreases d,
{
    let m = (d - 1) as nat;
    lemma_top_rows_len(v, m);
    let prefix = top_rows(v, m);
    let row = top_row(v, m);
    assert(top_rows(v, d) == prefix + row);
    let ii = i as int;
    if i < m {
        lemma_top_rows_at(v, m, i);
        assert((prefix + row)[4 * ii] == prefix[4 * ii]);
        assert((prefix + row)[4 * ii + 1] == prefix[4 * ii + 1]);
        assert((prefix + row)[4 * ii + 2] == prefix[4 * ii + 2]);
        assert((prefix + row)[4 * ii + 3] == prefix[4 * ii + 3]);
    } else {
        assert(row.len() == 4);
        assert((prefix + row)[4 * ii] == row[0]);
        assert((prefix + row)[4 * ii + 1] == row[1]);
        assert((prefix + row)[4 * ii + 2] == row[2]);
        assert((prefix + row)[4 * ii + 3] == row[3]);
    }
}

/// The prices of the book's `m` lowest asks (fewer if it has fewer).
pub open spec fn shown_asks(v: LobsterView, m: nat) -> Set<i64> {
    Set::new(|k: i64| exists|t: nat| t < m && #[trigger] nth_lowest(v.asks.dom(), t) == Some(k))
}

/// The prices of the book's `m` highest bids (fewer if it has fewer).
pub open spec fn shown_bids(v: LobsterView, m: nat) -> Set<i64> {
    Set::new(|k: i64| exists|t: nat| t < m && #[trigger] nth_highest(v.bids.dom(), t) == Some(k))
}

proof fn lemma_seeded_asks_step(v: LobsterView, d: nat, n: nat)
    requires
        fits_snapshot(v, d),
        n < d,
        seeded(empty_view(), top_rows(v, d), n).asks == v.asks.restrict(shown_asks(v, n)),
    ensures
        seeded(empty_view(), top_rows(v, d), n + 1).asks == v.asks.restrict(shown_asks(v, n + 1)),
{
    let snap = top_rows(v, d);
    let m = n + 1;
    lemma_top_rows_at(v, d, n);
    let prev = seeded(empty_view(), snap, n);
    let next = seeded(empty_view(), snap, m);
    assert(next == seed_level(prev, snap, n as int));
    let ni = n as int;
    match nth_lowest(v.asks.dom(), n) {
        Some(k) => {
            lemma_lowest_chain(v.asks.dom(), n);
            assert(ask_price(snap, ni) == k && ask_size(snap, ni) == v.asks[k] as i64);
            assert(next.asks == prev.asks.insert(k, v.asks[k]));
            assert(shown_asks(v, m) =~= shown_asks(v, n).insert(k));
            assert(prev.asks.insert(k, v.asks[k]) =~= v.asks.restrict(shown_asks(v, m)));
        },
        None => {
            assert(ask_price(snap, ni) == ASK_EMPTY);
            assert(next.asks == prev.asks);
            assert forall|k: i64| shown_asks(v, m).contains(k) implies shown_asks(v, n).contains(k) by {
                let t = choose|t: nat| t < m && #[trigger] nth_lowest(v.asks.dom(), t) == Some(k);
                assert(t < n);
            }
            assert(shown_asks(v, m) =~= shown_asks(v, n));
        },
    }
}

proof fn lemma_seeded_bids_step(v: LobsterView, d: nat, n: nat)
    requires
        fits_snapshot(v, d),
        n < d,
        seeded(empty_view(), top_rows(v, d), n).bids == v.bids.restrict(shown_bids(v, n)),
    ensures
        seeded(empty_view(), top_rows(v, d), n + 1).bids == v.bids.restrict(shown_bids(v, n + 1)),
{
    let snap = top_rows(v, d);
    let m = n + 1;
    lemma_top_rows_at(v, d, n);
    let prev = seeded(empty_view(), snap, n);
    let next = seeded(empty_view(), snap, m);
    assert(next == seed_level(prev, snap, n as int));
    let ni = n as int;
    match nth_highest(v.bids.dom(), n) {
        Some(k) => {
            lemma_highest_chain(v.bids.dom(), n);
            assert(bid_price(snap, ni) == k && bid_size(snap, ni) == v.bids[k] as i64);
            assert(next.bids == prev.bids.insert(k, v.bids[k]));
            assert(shown_bids(v, m) =~= shown_bids(v, n).insert(k));
            assert(prev.bids.insert(k, v.bids[k]) =~= v.bids.restrict(shown_bids(v, m)));
        },
        None => {
            assert(bid_price(snap, ni) == BID_EMPTY);
            assert(next.bids == prev.bids);
            assert forall|k: i64| shown_bids(v, m).contains(k) implies shown_bids(v, n).contains(k) by {
                let t = choose|t: nat| t < m && #[trigger] nth_highest(v.bids.dom(), t) == Some(k);
                assert(t < n);
            }
            assert(shown_bids(v, m) =~= shown_bids(v, n));
        },
    }
}

proof fn lemma_seeded_from_top(v: LobsterView, d: nat, m: nat)
    requires
        fits_snapshot(v, d),
        m <= d,
    ensures
        seeded(empty_view(), top_rows(v, d), m).asks == v.asks.restrict(shown_asks(v, m)),
        seeded(empty_view(), top_rows(v, d), m).bids == v.bids.restrict(shown_bids(v, m)),
    decreases m,
{
    if m == 0 {
        assert(v.asks.restrict(shown_asks(v, 0)) =~= Map::<i64, u64>::empty());
        assert(v.bids.restrict(shown_bids(v, 0)) =~= Map::<i64, u64>::empty());
    } else {
        let n = (m - 1) as nat;
        lemma_seeded_from_top(v, d, n);
        lemma_seeded_asks_step(v, d, n);
        lemma_seeded_bids_step(v, d, n);
    }
}

/// Law: reading a book's top `d` levels and seeding an empty book from them
/// gives the book back, when the snapshot shows all of it (at most `d` levels
/// a side, sizes positive and within an `i64`, no level at a marker price).
pub proof fn law_book_round_trip(v: LobsterView, d: nat)
    requires
        fits_snapshot(v, d),
    ensures
        seeded(empty_view(), top_rows(v, d), d) == v,
{
    lemma_seeded_from_top(v, d, d);
    lemma_lowest_covers(v.asks.dom(), d);
    lemma_highest_covers(v.bids.dom(), d);
    assert forall|k: i64| shown_asks(v, d).contains(k) implies v.asks.contains_key(k) by {
        let t = choose|t: nat| t < d && #[trigger] nth_lowest(v.asks.dom(), t) == Some(k);
        lemma_lowest_chain(v.asks.dom(), t);
    }
    assert forall|k: i64| shown_bids(v, d).contains(k) implies v.bids.contains_key(k) by {
        let t = choose|t: nat| t < d && #[trigger] nth_highest(v.bids.dom(), t) == Some(k);
        lemma_highest_chain(v.bids.dom(), t);
    }
    assert(v.asks.restrict(shown_asks(v, d)) =~= v.asks);
    assert(v.bids.restrict(shown_bids(v, d)) =~= v.bids);
}

} // verus!
