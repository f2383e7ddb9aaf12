//! Tick-indexed order book: price levels in a dense array indexed by
//! `(price - min_price) / tick_size`, one FIFO ring buffer per occupied level,
//! a bitmap per side mirroring occupancy, cached best-bid and best-ask
//! indices, and an id-to-location map for constant-time cancels.

use crate::bitmap::FastBitmap;
use crate::protocol::{NewOrderRequest, OrderConfirmation, OrderType, TradeNotification};
use crate::ring::RingBuffer;
use crate::trades::{trade_seq, TradeVec};
use std::collections::HashMap;
use vstd::prelude::*;

verus! {

broadcast use vstd::std_specs::hash::group_hash_axioms;

/// A resting order at one price level.
#[derive(Clone, Copy, Debug, PartialEq, Eq, Structural)]
pub struct OrderNode {
    pub user_id: u64,
    pub order_id: u64,
    pub price: u64,
    pub quantity: u64,
    /// Kept for wire compatibility; this book removes cancelled orders at
    /// once, so resting orders always carry `false` here.
    pub cancelled: bool,
}

/// Static configuration of one contract's book.
#[derive(Clone, Debug)]
pub struct ContractSpec {
    pub symbol: String,
    /// Smallest positive price increment.
    pub tick_size: u64,
    /// Lowest representable price (inclusive).
    pub min_price: u64,
    /// Highest representable price (inclusive).
    pub max_price: u64,
    /// Capacity of each price level's queue.
    pub queue_capacity: usize,
}

impl ContractSpec {
    /// Sound configuration: positive tick dividing the range, at least one
    /// queue slot, and a level count that fits the machine.
    pub open spec fn wf(self) -> bool {
        &&& self.tick_size > 0
        &&& self.min_price < self.max_price
        &&& (self.max_price - self.min_price) % (self.tick_size as int) == 0
        &&& self.queue_capacity >= 1
        &&& (self.max_price - self.min_price) / (self.tick_size as int) + 1 <= usize::MAX - 63
    }

    /// Number of price levels between `min_price` and `max_price`.
    pub open spec fn spec_num_levels(self) -> int {
        (self.max_price - self.min_price) / (self.tick_size as int) + 1
    }

    /// Standard configuration with the default per-level capacity.
    pub fn new(symbol: &str, tick_size: u64, min_price: u64, max_price: u64) -> (r: ContractSpec)
        requires
            tick_size > 0,
            max_price > min_price,
            (max_price - min_price) % (tick_size as int) == 0,
            (max_price - min_price) / (tick_size as int) + 1 <= usize::MAX - 63,
        ensures
            r.wf(),
            r.symbol@ == symbol@,
            r.tick_size == tick_size,
            r.min_price == min_price,
            r.max_price == max_price,
            r.queue_capacity == 2048,
    {
        ContractSpec {
            symbol: symbol.to_owned(),
            tick_size,
            min_price,
            max_price,
            queue_capacity: 2048,
        }
    }
}

/// Price of level `i`: `min_price + i * tick_size`.
pub open spec fn spec_index_to_price(c: ContractSpec, i: int) -> int {
    c.min_price + i * c.tick_size
}

/// A price the book accepts: inside the range and on a tick.
pub open spec fn spec_valid_price(c: ContractSpec, p: u64) -> bool {
    &&& c.min_price <= p <= c.max_price
    &&& (p - c.min_price) % (c.tick_size as int) == 0
}

/// Level index of a valid price.
pub open spec fn spec_price_index(c: ContractSpec, p: u64) -> int {
    (p - c.min_price) / (c.tick_size as int)
}

/// A valid price round-trips through its level index, which is in range.
pub proof fn lemma_price_index(c: ContractSpec, p: u64)
    requires
        c.wf(),
        spec_valid_price(c, p),
    ensures
        0 <= spec_price_index(c, p) < c.spec_num_levels(),
        spec_index_to_price(c, spec_price_index(c, p)) == p,
{
    let t = c.tick_size as int;
    let d = p - c.min_price;
    let r = c.max_price - c.min_price;
    assert(0 <= d / t && d / t <= r / t && t * (d / t) == d && (d / t) * t == d) by (nonlinear_arith)
        requires
            t > 0 && 0 <= d <= r && d % t == 0,
    ;
}

/// Level prices stay within the configured range.
pub proof fn lemma_index_price(c: ContractSpec, i: int)
    requires
        c.wf(),
        0 <= i < c.spec_num_levels(),
    ensures
        c.min_price <= spec_index_to_price(c, i) <= c.max_price,
        spec_valid_price(c, spec_index_to_price(c, i) as u64),
        spec_price_index(c, spec_index_to_price(c, i) as u64) == i,
{
    let t = c.tick_size as int;
    let r = c.max_price - c.min_price;
    assert(0 <= i * t <= r && (i * t) % t == 0 && (i * t) / t == i) by (nonlinear_arith)
        requires
            t > 0 && 0 <= i <= r / t && r % t == 0,
    ;
}

/// Strictly higher levels carry strictly higher prices.
pub proof fn lemma_price_mono(c: ContractSpec, i: int, j: int)
    requires
        c.wf(),
        i < j,
    ensures
        spec_index_to_price(c, i) < spec_index_to_price(c, j),
{
    let t = c.tick_size as int;
    assert(i * t < j * t) by (nonlinear_arith)
        requires
            t > 0 && i < j,
    ;
}

/// Where a resting order lives: its level index and side.
#[derive(Clone, Copy, Debug)]
struct OrderLocation {
    price_idx: usize,
    is_bid: bool,
}

/// One fill taken from the front of a level during a match.
pub struct Fill {
    pub maker: OrderNode,
    pub qty: u64,
}

/// Result of sweeping resting levels against an incoming order: the fills in
/// generation order (tagged with their level index), the levels afterwards,
/// and the unfilled part of the incoming quantity.
pub struct SweepOut {
    pub fills: Seq<(int, Fill)>,
    pub levels: Seq<Seq<OrderNode>>,
    pub remaining: u64,
}

/// Matches `remaining` against one level, front order first: each fill takes
/// `min(remaining, front.quantity)`; a fully filled front leaves the queue, a
/// partially filled front stays with its quantity reduced.
pub open spec fn level_fill(queue: Seq<OrderNode>, remaining: u64) -> (Seq<Fill>, Seq<OrderNode>, u64)
    decreases queue.len(),
{
    if remaining == 0 || queue.len() == 0 {
        (Seq::<Fill>::empty(), queue, remaining)
    } else {
        let front = queue[0];
        if front.quantity <= remaining {
            let f = Fill { maker: front, qty: front.quantity };
            let rest = level_fill(queue.drop_first(), (remaining - front.quantity) as u64);
            (seq![f] + rest.0, rest.1, rest.2)
        } else {
            let f = Fill { maker: front, qty: remaining };
            let reduced = OrderNode { quantity: (front.quantity - remaining) as u64, ..front };
            (seq![f], queue.update(0, reduced), 0u64)
        }
    }
}

/// Sweeps levels from `i` towards `limit` (upward when `up`), filling each in
/// turn until the quantity is exhausted or the limit is passed.
pub open spec fn sweep(
    levels: Seq<Seq<OrderNode>>,
    i: int,
    limit: int,
    up: bool,
    remaining: u64,
) -> SweepOut
    decreases
            (if up {
                limit + 1 - i
            } else {
                i + 1 - limit
            }),
{
    if remaining == 0 || i < 0 || i >= levels.len() || (up && i > limit) || (!up && i < limit) {
        SweepOut { fills: Seq::empty(), levels, remaining }
    } else {
        let lf = level_fill(levels[i], remaining);
        let tagged = lf.0.map(|_k: int, f: Fill| (i, f));
        let rest = sweep(
            levels.update(i, lf.1),
            if up {
                i + 1
            } else {
                i - 1
            },
            limit,
            up,
            lf.2,
        );
        SweepOut { fills: tagged + rest.fills, levels: rest.levels, remaining: rest.remaining }
    }
}

/// The trade produced by one fill at `price`, for a taker on side `is_buy`.
pub open spec fn fill_trade(
    f: Fill,
    price: u64,
    is_buy: bool,
    taker_user: u64,
    taker_id: u64,
    symbol: String,
) -> TradeNotification {
    TradeNotification {
        trade_id: 0,
        symbol: symbol,
        matched_price: price,
        matched_quantity: f.qty,
        buyer_user_id: if is_buy {
            taker_user
        } else {
            f.maker.user_id
        },
        buyer_order_id: if is_buy {
            taker_id
        } else {
            f.maker.order_id
        },
        seller_user_id: if is_buy {
            f.maker.user_id
        } else {
            taker_user
        },
        seller_order_id: if is_buy {
            f.maker.order_id
        } else {
            taker_id
        },
        timestamp: 0,
    }
}

/// The trades produced by the fills of one level sweep.
pub open spec fn fills_trades(
    fills: Seq<Fill>,
    price: u64,
    is_buy: bool,
    taker_user: u64,
    taker_id: u64,
    symbol: String,
) -> Seq<TradeNotification> {
    fills.map(|_k: int, f: Fill| fill_trade(f, price, is_buy, taker_user, taker_id, symbol))
}

/// The trades produced by a whole sweep, in generation order.
pub open spec fn sweep_trades(
    c: ContractSpec,
    fills: Seq<(int, Fill)>,
    is_buy: bool,
    taker_user: u64,
    taker_id: u64,
    symbol: String,
) -> Seq<TradeNotification> {
    fills.map(
        |_k: int, t: (int, Fill)|
            fill_trade(
                t.1,
                spec_index_to_price(c, t.0) as u64,
                is_buy,
                taker_user,
                taker_id,
                symbol,
            ),
    )
}

/// Total quantity of a sequence of tagged fills.
pub open spec fn fills_qty(fills: Seq<(int, Fill)>) -> int
    decreases fills.len(),
{
    if fills.len() == 0 {
        0
    } else {
        fills_qty(fills.drop_last()) + fills.last().1.qty
    }
}

/// Some order in `s[i]` carries id `id`.
pub open spec fn order_at(s: Seq<Seq<OrderNode>>, i: int, id: u64) -> bool {
    exists|k: int| 0 <= k < s[i].len() && s[i][k].order_id == id
}

/// Every order of side `s` carries its level's price, positive quantity, no
/// cancelled flag, and an id below the book's counter.
pub open spec fn side_orders_wf(c: ContractSpec, s: Seq<Seq<OrderNode>>, next_id: u64) -> bool {
    forall|i: int, k: int|
        0 <= i < s.len() && 0 <= k < s[i].len() ==> {
            let o = #[trigger] s[i][k];
            &&& o.price == spec_index_to_price(c, i)
            &&& o.quantity > 0
            &&& !o.cancelled
            &&& o.order_id < next_id
        }
}

/// No order id repeats within a level.
pub open spec fn side_ids_unique(s: Seq<Seq<OrderNode>>) -> bool {
    forall|i: int, k1: int, k2: int|
        0 <= i < s.len() && 0 <= k1 < k2 < s[i].len() ==> (#[trigger] s[i][k1]).order_id != (
        #[trigger] s[i][k2]).order_id
}

/// The id map points at exactly the resting orders: every mapped id names an
/// order at its recorded level and side, and every resting order's id is
/// mapped to its position.
spec fn locs_ok(
    bids: Seq<Seq<OrderNode>>,
    asks: Seq<Seq<OrderNode>>,
    m: Map<u64, OrderLocation>,
    num: int,
) -> bool {
    &&& forall|id: u64|
        #[trigger] m.contains_key(id) ==> {
            let loc = m[id];
            &&& (loc.price_idx as int) < num
            &&& order_at(
                if loc.is_bid {
                    bids
                } else {
                    asks
                },
                loc.price_idx as int,
                id,
            )
        }
    &&& forall|i: int, k: int|
        0 <= i < bids.len() && 0 <= k < bids[i].len() ==> {
            let o = #[trigger] bids[i][k];
            &&& m.contains_key(o.order_id)
            &&& m[o.order_id].price_idx == i
            &&& m[o.order_id].is_bid
        }
    &&& forall|i: int, k: int|
        0 <= i < asks.len() && 0 <= k < asks[i].len() ==> {
            let o = #[trigger] asks[i][k];
            &&& m.contains_key(o.order_id)
            &&& m[o.order_id].price_idx == i
            &&& !m[o.order_id].is_bid
        }
}

/// `a` is `b` after partial consumption from the front of its level: the
/// identifying fields agree and the quantity may only have shrunk, not to
/// zero.
pub open spec fn same_order_reduced(a: OrderNode, b: OrderNode) -> bool {
    &&& a.user_id == b.user_id
    &&& a.order_id == b.order_id
    &&& a.price == b.price
    &&& a.cancelled == b.cancelled
    &&& 0 < a.quantity <= b.quantity
}

/// Ids of the first `n` orders of `q`.
pub open spec fn prefix_ids(q: Seq<OrderNode>, n: int) -> Set<u64> {
    Set::new(|id: u64| exists|k: int| 0 <= k < n && k < q.len() && q[k].order_id == id)
}

/// Total quantity of a sequence of plain fills.
pub open spec fn fill_seq_qty(fills: Seq<Fill>) -> int
    decreases fills.len(),
{
    if fills.len() == 0 {
        0
    } else {
        fill_seq_qty(fills.drop_last()) + fills.last().qty
    }
}

/// What one level match does: the surviving queue is the untouched suffix,
/// with at most the new front reduced; the fills take the front orders in
/// FIFO order; quantity is conserved.
pub proof fn lemma_level_fill_props(queue: Seq<OrderNode>, remaining: u64)
    requires
        forall|k: int| 0 <= k < queue.len() ==> (#[trigger] queue[k]).quantity > 0,
    ensures
        ({
            let lf = level_fill(queue, remaining);
            let n = queue.len() - lf.1.len();
            &&& 0 <= n <= queue.len()
            &&& lf.2 <= remaining
            &&& (lf.2 > 0 ==> lf.1.len() == 0)
            &&& forall|k: int|
                0 <= k < lf.1.len() ==> same_order_reduced(#[trigger] lf.1[k], queue[n + k]) && (k
                    > 0 ==> lf.1[k] == queue[n + k])
            &&& lf.0.len() <= queue.len()
            &&& forall|k: int|
                0 <= k < lf.0.len() ==> (#[trigger] lf.0[k]).maker == queue[k] && 0 < lf.0[k].qty
                    <= queue[k].quantity
            &&& fill_seq_qty(lf.0) + lf.2 == remaining
        }),
    decreases queue.len(),
{
    let lf = level_fill(queue, remaining);
    if remaining == 0 || queue.len() == 0 {
        assert(fill_seq_qty(lf.0) == 0);
    } else {
        let front = queue[0];
        if front.quantity <= remaining {
            let tail = queue.drop_first();
            let rem2 = (remaining - front.quantity) as u64;
            lemma_level_fill_props(tail, rem2);
            let rest = level_fill(tail, rem2);
            let f = Fill { maker: front, qty: front.quantity };
            assert(lf.0 =~= seq![f] + rest.0);
            lemma_fill_seq_qty_cons(f, rest.0);
            assert forall|k: int| 0 <= k < lf.0.len() implies (#[trigger] lf.0[k]).maker
                == queue[k] && 0 < lf.0[k].qty <= queue[k].quantity by {
                if k > 0 {
                    assert(lf.0[k] == rest.0[k - 1]);
                    assert(rest.0[k - 1].maker == tail[k - 1]);
                }
            }
            assert forall|k: int|
                0 <= k < lf.1.len() implies same_order_reduced(
                #[trigger] lf.1[k],
                queue[queue.len() - lf.1.len() + k],
            ) && (k > 0 ==> lf.1[k] == queue[queue.len() - lf.1.len() + k]) by {
                assert(lf.1[k] == rest.1[k]);
                assert(same_order_reduced(rest.1[k], tail[tail.len() - rest.1.len() + k]));
            }
        } else {
            let f = Fill { maker: front, qty: remaining };
            assert(lf.0 =~= seq![f]);
            assert(fill_seq_qty(lf.0) == remaining) by {
                assert(lf.0.drop_last() =~= Seq::<Fill>::empty());
                assert(fill_seq_qty(Seq::<Fill>::empty()) == 0);
                assert(lf.0.last() == f);
            }
        }
    }
}

/// Prepending one fill adds its quantity to the total.
proof fn lemma_fill_seq_qty_cons(f: Fill, rest: Seq<Fill>)
    ensures
        fill_seq_qty(seq![f] + rest) == f.qty + fill_seq_qty(rest),
    decreases rest.len(),
{
    let s = seq![f] + rest;
    if rest.len() == 0 {
        assert(s =~= seq![f]);
        assert(s.drop_last() =~= Seq::<Fill>::empty());
        assert(fill_seq_qty(Seq::<Fill>::empty()) == 0);
        assert(fill_seq_qty(rest) == 0);
        assert(s.last() == f);
    } else {
        assert(s.last() == rest.last());
        assert(s.drop_last() =~= seq![f] + rest.drop_last());
        lemma_fill_seq_qty_cons(f, rest.drop_last());
    }
}

/// Tagging fills with a level index keeps the total quantity.
proof fn lemma_tag_qty(fills: Seq<Fill>, i: int)
    ensures
        fills_qty(fills.map(|_k: int, f: Fill| (i, f))) == fill_seq_qty(fills),
    decreases fills.len(),
{
    let tagged = fills.map(|_k: int, f: Fill| (i, f));
    if fills.len() == 0 {
        assert(tagged.len() == 0);
    } else {
        lemma_tag_qty(fills.drop_last(), i);
        assert(tagged.drop_last() =~= fills.drop_last().map(|_k: int, f: Fill| (i, f)));
        assert(tagged.last() == (i, fills.last()));
    }
}

/// Concatenating tagged fill sequences adds their totals.
proof fn lemma_fills_qty_add(a: Seq<(int, Fill)>, b: Seq<(int, Fill)>)
    ensures
        fills_qty(a + b) == fills_qty(a) + fills_qty(b),
    decreases b.len(),
{
    if b.len() == 0 {
        assert(a + b =~= a);
    } else {
        lemma_fills_qty_add(a, b.drop_last());
        assert((a + b).drop_last() =~= a + b.drop_last());
        assert((a + b).last() == b.last());
    }
}

/// Sweeping empty levels changes nothing: the sweep from `i` equals the sweep
/// from `j` when every level of `[i, j)` is empty.
proof fn lemma_sweep_skip_up(levels: Seq<Seq<OrderNode>>, i: int, j: int, limit: int, rem: u64)
    requires
        0 <= i <= j <= levels.len(),
        forall|k: int| i <= k < j ==> levels[k].len() == 0,
    ensures
        sweep(levels, i, limit, true, rem) == sweep(levels, j, limit, true, rem),
    decreases j - i,
{
    if i < j {
        if rem == 0 || i >= levels.len() || i > limit {
            assert(sweep(levels, j, limit, true, rem) == sweep(levels, i, limit, true, rem));
        } else {
            let lf = level_fill(levels[i], rem);
            assert(lf.1 == levels[i]);
            assert(levels.update(i, lf.1) =~= levels);
            assert(lf.0.map(|_k: int, f: Fill| (i, f)).len() == 0);
            let rest = sweep(levels, i + 1, limit, true, rem);
            assert(lf.0.map(|_k: int, f: Fill| (i, f)) + rest.fills =~= rest.fills);
            lemma_sweep_skip_up(levels, i + 1, j, limit, rem);
        }
    }
}

/// Downward mirror of [`lemma_sweep_skip_up`]: levels of `(j, i]` empty.
proof fn lemma_sweep_skip_down(levels: Seq<Seq<OrderNode>>, i: int, j: int, limit: int, rem: u64)
    requires
        -1 <= j <= i < levels.len(),
        forall|k: int| j < k <= i ==> levels[k].len() == 0,
    ensures
        sweep(levels, i, limit, false, rem) == sweep(levels, j, limit, false, rem),
    decreases i - j,
{
    if j < i {
        if rem == 0 || i < limit {
            assert(sweep(levels, j, limit, false, rem) == sweep(levels, i, limit, false, rem));
        } else {
            let lf = level_fill(levels[i], rem);
            assert(lf.1 == levels[i]);
            assert(levels.update(i, lf.1) =~= levels);
            assert(lf.0.map(|_k: int, f: Fill| (i, f)).len() == 0);
            let rest = sweep(levels, i - 1, limit, false, rem);
            assert(lf.0.map(|_k: int, f: Fill| (i, f)) + rest.fills =~= rest.fills);
            lemma_sweep_skip_down(levels, i - 1, j, limit, rem);
        }
    }
}

/// A sweep keeps the level count, leaves levels outside its range untouched,
/// and, when quantity is left over, has emptied every level it scanned.
pub proof fn lemma_sweep_range(
    levels: Seq<Seq<OrderNode>>,
    i: int,
    limit: int,
    up: bool,
    rem: u64,
)
    requires
        up ==> i >= 0,
        !up ==> i < levels.len(),
    ensures
        ({
            let s = sweep(levels, i, limit, up, rem);
            &&& s.levels.len() == levels.len()
            &&& forall|j: int|
                0 <= j < levels.len() && (if up {
                    j < i || j > limit
                } else {
                    j > i || j < limit
                }) ==> s.levels[j] == levels[j]
            &&& forall|j: int|
                0 <= j < levels.len() ==> (#[trigger] s.levels[j]).len() <= levels[j].len()
            &&& (s.remaining > 0 ==> forall|j: int|
                0 <= j < levels.len() && (if up {
                    i <= j <= limit
                } else {
                    limit <= j <= i
                }) ==> (#[trigger] s.levels[j]).len() == 0)
            &&& s.remaining <= rem
        }),
    decreases
            (if up {
                limit + 1 - i
            } else {
                i + 1 - limit
            }),
{
    if rem == 0 || i < 0 || i >= levels.len() || (up && i > limit) || (!up && i < limit) {
    } else {
        let s = sweep(levels, i, limit, up, rem);
        let lf = level_fill(levels[i], rem);
        lemma_level_fill_len(levels[i], rem);
        let levels2 = levels.update(i, lf.1);
        let step: int = if up {
            i + 1
        } else {
            i - 1
        };
        lemma_sweep_range(levels2, step, limit, up, lf.2);
        let rest = sweep(levels2, step, limit, up, lf.2);
        assert(s.levels == rest.levels && s.remaining == rest.remaining);
        assert forall|j: int|
            0 <= j < levels.len() && (if up {
                j < i || j > limit
            } else {
                j > i || j < limit
            }) implies s.levels[j] == levels[j] by {
            assert(rest.levels[j] == levels2[j]);
        }
        assert forall|j: int| 0 <= j < levels.len() implies (#[trigger] s.levels[j]).len()
            <= levels[j].len() by {
            assert(rest.levels[j].len() <= levels2[j].len());
        }
        if s.remaining > 0 {
            assert forall|j: int|
                0 <= j < levels.len() && (if up {
                    i <= j <= limit
                } else {
                    limit <= j <= i
                }) implies (#[trigger] s.levels[j]).len() == 0 by {
                if j == i {
                    assert(rest.levels[i] == levels2[i]);
                    assert(lf.2 >= rest.remaining);
                } else {
                    assert(rest.levels[j].len() == 0);
                }
            }
        }
    }
}

/// A level fill never grows the queue, and leftover quantity empties it.
proof fn lemma_level_fill_len(queue: Seq<OrderNode>, remaining: u64)
    ensures
        level_fill(queue, remaining).1.len() <= queue.len(),
        level_fill(queue, remaining).2 <= remaining,
        level_fill(queue, remaining).2 > 0 ==> level_fill(queue, remaining).1.len() == 0,
    decreases queue.len(),
{
    if remaining == 0 || queue.len() == 0 {
    } else {
        let front = queue[0];
        if front.quantity <= remaining {
            lemma_level_fill_len(queue.drop_first(), (remaining - front.quantity) as u64);
        }
    }
}

/// Quantity conservation across a whole sweep: the filled quantities and the
/// leftover add up to the incoming quantity.
pub proof fn lemma_sweep_conserves(
    levels: Seq<Seq<OrderNode>>,
    i: int,
    limit: int,
    up: bool,
    rem: u64,
)
    requires
        forall|l: int, k: int|
            0 <= l < levels.len() && 0 <= k < levels[l].len() ==> (#[trigger] levels[l][k]).quantity
                > 0,
    ensures
        fills_qty(sweep(levels, i, limit, up, rem).fills) + sweep(levels, i, limit, up, rem).remaining
            == rem,
    decreases
            (if up {
                limit + 1 - i
            } else {
                i + 1 - limit
            }),
{
    let s = sweep(levels, i, limit, up, rem);
    if rem == 0 || i < 0 || i >= levels.len() || (up && i > limit) || (!up && i < limit) {
        assert(fills_qty(s.fills) == 0);
    } else {
        let lf = level_fill(levels[i], rem);
        assert(forall|k: int| 0 <= k < levels[i].len() ==> (#[trigger] levels[i][k]).quantity > 0);
        lemma_level_fill_props(levels[i], rem);
        let levels2 = levels.update(i, lf.1);
        assert forall|l: int, k: int|
            0 <= l < levels2.len() && 0 <= k < levels2[l].len() implies (
        #[trigger] levels2[l][k]).quantity > 0 by {
            if l == i {
                assert(same_order_reduced(lf.1[k], levels[i][levels[i].len() - lf.1.len() + k]));
            }
        }
        lemma_sweep_conserves(levels2, if up { i + 1 } else { i - 1 }, limit, up, lf.2);
        let tagged = lf.0.map(|_k: int, f: Fill| (i, f));
        lemma_tag_qty(lf.0, i);
        lemma_fills_qty_add(tagged, sweep(levels2, if up { i + 1 } else { i - 1 }, limit, up, lf.2).fills);
    }
}

/// After one level is partially consumed from the front and the consumed
/// orders' ids leave the map, the map again points at exactly the resting
/// orders, and level ids stay distinct.
proof fn lemma_fill_step(
    bids: Seq<Seq<OrderNode>>,
    asks: Seq<Seq<OrderNode>>,
    m: Map<u64, OrderLocation>,
    num: int,
    c: ContractSpec,
    next_id: u64,
    on_bid: bool,
    idx: int,
    q2: Seq<OrderNode>,
    m2: Map<u64, OrderLocation>,
)
    requires
        locs_ok(bids, asks, m, num),
        side_ids_unique(bids),
        side_ids_unique(asks),
        side_orders_wf(c, bids, next_id),
        side_orders_wf(c, asks, next_id),
        bids.len() == num,
        asks.len() == num,
        0 <= idx < num,
        ({
            let q0 = if on_bid {
                bids[idx]
            } else {
                asks[idx]
            };
            let n = q0.len() - q2.len();
            &&& 0 <= n <= q0.len()
            &&& forall|k: int|
                0 <= k < q2.len() ==> same_order_reduced(#[trigger] q2[k], q0[n + k])
            &&& m2 == m.remove_keys(prefix_ids(q0, n))
        }),
    ensures
        ({
            let b2 = if on_bid {
                bids.update(idx, q2)
            } else {
                bids
            };
            let a2 = if on_bid {
                asks
            } else {
                asks.update(idx, q2)
            };
            &&& locs_ok(b2, a2, m2, num)
            &&& side_ids_unique(b2)
            &&& side_ids_unique(a2)
            &&& side_orders_wf(c, b2, next_id)
            &&& side_orders_wf(c, a2, next_id)
        }),
{
    let q0 = if on_bid {
        bids[idx]
    } else {
        asks[idx]
    };
    let n = q0.len() - q2.len();
    let b2 = if on_bid {
        bids.update(idx, q2)
    } else {
        bids
    };
    let a2 = if on_bid {
        asks
    } else {
        asks.update(idx, q2)
    };
    let s2 = if on_bid {
        b2
    } else {
        a2
    };
    assert forall|i: int, k1: int, k2: int|
        0 <= i < s2.len() && 0 <= k1 < k2 < s2[i].len() implies (#[trigger] s2[i][k1]).order_id != (
    #[trigger] s2[i][k2]).order_id by {
        if i == idx {
            assert(same_order_reduced(q2[k1], q0[n + k1]));
            assert(same_order_reduced(q2[k2], q0[n + k2]));
            assert(q0[n + k1].order_id != q0[n + k2].order_id);
        }
    }
    assert forall|i: int, k: int|
        0 <= i < s2.len() && 0 <= k < s2[i].len() implies {
            let o = #[trigger] s2[i][k];
            &&& o.price == spec_index_to_price(c, i)
            &&& o.quantity > 0
            &&& !o.cancelled
            &&& o.order_id < next_id
        } by {
        if i == idx {
            assert(same_order_reduced(q2[k], q0[n + k]));
        }
    }
    // Every surviving mapped id still names an order at its location.
    assert forall|id: u64| #[trigger] m2.contains_key(id) implies {
        let loc = m2[id];
        &&& (loc.price_idx as int) < num
        &&& order_at(
            if loc.is_bid {
                b2
            } else {
                a2
            },
            loc.price_idx as int,
            id,
        )
    } by {
        assert(!prefix_ids(q0, n).contains(id));
        assert(m.contains_key(id));
        assert(m2[id] == m[id]);
        let loc = m[id];
        let old_side = if loc.is_bid {
            bids
        } else {
            asks
        };
        let new_side = if loc.is_bid {
            b2
        } else {
            a2
        };
        let k = choose|k: int|
            0 <= k < old_side[loc.price_idx as int].len() && old_side[loc.price_idx as int][k].order_id
                == id;
        if loc.is_bid == on_bid && loc.price_idx == idx {
            if k < n {
                assert(prefix_ids(q0, n).contains(id));
            } else {
                assert(same_order_reduced(q2[k - n], q0[k]));
                assert(order_at(new_side, idx, id)) by {
                    assert(0 <= k - n < q2.len() && q2[k - n].order_id == id);
                }
            }
        } else {
            assert(new_side[loc.price_idx as int] == old_side[loc.price_idx as int]);
            assert(order_at(new_side, loc.price_idx as int, id)) by {
                assert(0 <= k < new_side[loc.price_idx as int].len() && new_side[loc.price_idx as int][k].order_id == id);
            }
        }
    }
    // Every surviving order is still mapped to its position.
    assert forall|i: int, k: int|
        0 <= i < b2.len() && 0 <= k < b2[i].len() implies {
            let o = #[trigger] b2[i][k];
            &&& m2.contains_key(o.order_id)
            &&& m2[o.order_id].price_idx == i
            &&& m2[o.order_id].is_bid
        } by {
        let o = b2[i][k];
        if on_bid && i == idx {
            assert(same_order_reduced(q2[k], q0[n + k]));
            let ob = q0[n + k];
            assert(m.contains_key(ob.order_id) && m[ob.order_id].price_idx == i
                && m[ob.order_id].is_bid);
            assert(!prefix_ids(q0, n).contains(o.order_id)) by {
                if prefix_ids(q0, n).contains(o.order_id) {
                    let kk = choose|kk: int|
                        0 <= kk < n && kk < q0.len() && q0[kk].order_id == o.order_id;
                    assert(q0[kk].order_id != q0[n + k].order_id);
                }
            }
        } else {
            assert(m.contains_key(o.order_id) && m[o.order_id].price_idx == i
                && m[o.order_id].is_bid);
            assert(!prefix_ids(q0, n).contains(o.order_id)) by {
                if prefix_ids(q0, n).contains(o.order_id) {
                    let kk = choose|kk: int|
                        0 <= kk < n && kk < q0.len() && q0[kk].order_id == o.order_id;
                    assert(m.contains_key(q0[kk].order_id) && m[q0[kk].order_id].price_idx == idx
                        && m[q0[kk].order_id].is_bid == on_bid);
                }
            }
        }
    }
    assert forall|i: int, k: int|
        0 <= i < a2.len() && 0 <= k < a2[i].len() implies {
            let o = #[trigger] a2[i][k];
            &&& m2.contains_key(o.order_id)
            &&& m2[o.order_id].price_idx == i
            &&& !m2[o.order_id].is_bid
        } by {
        let o = a2[i][k];
        if !on_bid && i == idx {
            assert(same_order_reduced(q2[k], q0[n + k]));
            let ob = q0[n + k];
            assert(m.contains_key(ob.order_id) && m[ob.order_id].price_idx == i
                && !m[ob.order_id].is_bid);
            assert(!prefix_ids(q0, n).contains(o.order_id)) by {
                if prefix_ids(q0, n).contains(o.order_id) {
                    let kk = choose|kk: int|
                        0 <= kk < n && kk < q0.len() && q0[kk].order_id == o.order_id;
                    assert(q0[kk].order_id != q0[n + k].order_id);
                }
            }
        } else {
            assert(m.contains_key(o.order_id) && m[o.order_id].price_idx == i
                && !m[o.order_id].is_bid);
            assert(!prefix_ids(q0, n).contains(o.order_id)) by {
                if prefix_ids(q0, n).contains(o.order_id) {
                    let kk = choose|kk: int|
                        0 <= kk < n && kk < q0.len() && q0[kk].order_id == o.order_id;
                    assert(m.contains_key(q0[kk].order_id) && m[q0[kk].order_id].price_idx == idx
                        && m[q0[kk].order_id].is_bid == on_bid);
                }
            }
        }
    }
}

/// Strict price-time priority within one level: the `k`-th fill of a level
/// match is taken from the `k`-th resting order of that level's FIFO queue.
pub proof fn lemma_level_fill_fifo(queue: Seq<OrderNode>, remaining: u64)
    requires
        forall|k: int| 0 <= k < queue.len() ==> (#[trigger] queue[k]).quantity > 0,
    ensures
        level_fill(queue, remaining).0.len() <= queue.len(),
        forall|k: int|
            0 <= k < level_fill(queue, remaining).0.len() ==> (#[trigger] level_fill(
                queue,
                remaining,
            ).0[k]).maker == queue[k],
{
    lemma_level_fill_props(queue, remaining);
}

/// The same priority, seen in the trades: when one level is matched, the
/// `k`-th generated trade names the `k`-th enqueued order of that level as
/// its maker — the seller for an incoming buy, the buyer for an incoming
/// sell.
pub proof fn lemma_level_trades_fifo(
    queue: Seq<OrderNode>,
    remaining: u64,
    price: u64,
    is_buy: bool,
    taker_user: u64,
    taker_id: u64,
    symbol: String,
)
    requires
        forall|k: int| 0 <= k < queue.len() ==> (#[trigger] queue[k]).quantity > 0,
    ensures
        ({
            let ts = fills_trades(
                level_fill(queue, remaining).0,
                price,
                is_buy,
                taker_user,
                taker_id,
                symbol,
            );
            &&& ts.len() <= queue.len()
            &&& forall|k: int|
                0 <= k < ts.len() ==> (if is_buy {
                    (#[trigger] ts[k]).seller_order_id
                } else {
                    (#[trigger] ts[k]).buyer_order_id
                }) == queue[k].order_id
        }),
{
    lemma_level_fill_props(queue, remaining);
}

/// The tick-indexed book for one contract.
pub struct TickBasedOrderBook {
    contract: ContractSpec,
    bid_levels: Vec<Option<RingBuffer<OrderNode>>>,
    ask_levels: Vec<Option<RingBuffer<OrderNode>>>,
    bid_bitmap: FastBitmap,
    ask_bitmap: FastBitmap,
    best_bid_idx: Option<usize>,
    best_ask_idx: Option<usize>,
    next_order_id: u64,
    order_locations: HashMap<u64, OrderLocation>,
}

/// The orders at one level slot: empty when the slot is unoccupied.
pub open spec fn level_view(l: Option<RingBuffer<OrderNode>>) -> Seq<OrderNode> {
    match l {
        Some(q) => q@,
        None => Seq::empty(),
    }
}

impl TickBasedOrderBook {
    /// The contract this book trades.
    pub closed spec fn contract_spec(self) -> ContractSpec {
        self.contract
    }

    /// Number of price levels.
    pub open spec fn num_levels(self) -> int {
        self.contract_spec().spec_num_levels()
    }

    /// The resting buy orders, one sequence per level, FIFO order.
    pub closed spec fn bids(self) -> Seq<Seq<OrderNode>> {
        Seq::new(self.bid_levels@.len(), |i: int| level_view(self.bid_levels@[i]))
    }

    /// The resting sell orders, one sequence per level, FIFO order.
    pub closed spec fn asks(self) -> Seq<Seq<OrderNode>> {
        Seq::new(self.ask_levels@.len(), |i: int| level_view(self.ask_levels@[i]))
    }

    /// Next order id the book will assign.
    pub closed spec fn spec_next_order_id(self) -> u64 {
        self.next_order_id
    }

    /// Ids the cancel map knows.
    pub closed spec fn location_ids(self) -> Set<u64> {
        self.order_locations@.dom()
    }

    /// One side's physical storage is sound and its bitmap mirrors occupancy.
    spec fn side_wf(
        levels: Seq<Option<RingBuffer<OrderNode>>>,
        bm: FastBitmap,
        cap: int,
        num: int,
    ) -> bool {
        &&& levels.len() == num
        &&& bm.wf()
        &&& bm.spec_len() == num
        &&& forall|i: int|
            0 <= i < num ==> match #[trigger] levels[i] {
                Some(q) => q.wf() && q@.len() > 0 && q.spec_capacity() == cap,
                None => true,
            }
        &&& forall|i: int| 0 <= i < num ==> (bm.bit(i) <==> (#[trigger] levels[i]) is Some)
    }

    /// A best-index cache is the extreme occupied level of its side:
    /// highest for bids, lowest for asks.
    spec fn side_cache_ok(s: Seq<Seq<OrderNode>>, cache: Option<usize>, highest: bool) -> bool {
        match cache {
            Some(m) => {
                &&& (m as int) < s.len()
                &&& s[m as int].len() > 0
                &&& (if highest {
                    forall|j: int| m < j < s.len() ==> s[j].len() == 0
                } else {
                    forall|j: int| 0 <= j < m ==> s[j].len() == 0
                })
            },
            None => forall|j: int| 0 <= j < s.len() ==> s[j].len() == 0,
        }
    }

    /// The id map points at exactly the resting orders.
    spec fn locations_ok(self) -> bool {
        locs_ok(self.bids(), self.asks(), self.order_locations@, self.num_levels())
    }

    /// Best-bid strictly below best-ask whenever both sides rest (the book is
    /// never crossed at rest).
    spec fn uncrossed(self) -> bool {
        match (self.best_bid_idx, self.best_ask_idx) {
            (Some(b), Some(a)) => (b as int) < (a as int),
            _ => true,
        }
    }

    /// Full book invariant, preserved by every operation.
    pub closed spec fn inv(self) -> bool {
        &&& self.contract.wf()
        &&& Self::side_wf(
            self.bid_levels@,
            self.bid_bitmap,
            self.contract.queue_capacity as int,
            self.num_levels(),
        )
        &&& Self::side_wf(
            self.ask_levels@,
            self.ask_bitmap,
            self.contract.queue_capacity as int,
            self.num_levels(),
        )
        &&& side_orders_wf(self.contract, self.bids(), self.next_order_id)
        &&& side_orders_wf(self.contract, self.asks(), self.next_order_id)
        &&& side_ids_unique(self.bids())
        &&& side_ids_unique(self.asks())
        &&& Self::side_cache_ok(self.bids(), self.best_bid_idx, true)
        &&& Self::side_cache_ok(self.asks(), self.best_ask_idx, false)
        &&& self.locations_ok()
        &&& self.uncrossed()
        &&& self.next_order_id >= 1
    }

    /// Creates an empty book for `contract`.
    pub fn new(contract: ContractSpec) -> (r: TickBasedOrderBook)
        requires
            contract.wf(),
        ensures
            r.inv(),
            r.contract_spec() == contract,
            r.spec_next_order_id() == 1,
            r.bids().len() == r.num_levels(),
            r.asks().len() == r.num_levels(),
            forall|i: int| 0 <= i < r.num_levels() ==> r.bids()[i].len() == 0,
            forall|i: int| 0 <= i < r.num_levels() ==> r.asks()[i].len() == 0,
            r.location_ids() =~= Set::<u64>::empty(),
    {
        let num = (contract.max_price - contract.min_price) / contract.tick_size;
        let num_levels = (num as usize) + 1;
        let mut bid_levels: Vec<Option<RingBuffer<OrderNode>>> = Vec::new();
        let mut ask_levels: Vec<Option<RingBuffer<OrderNode>>> = Vec::new();
        let mut i: usize = 0;
        while i < num_levels
            invariant
                i <= num_levels,
                bid_levels@.len() == i,
                ask_levels@.len() == i,
                forall|j: int| 0 <= j < i ==> bid_levels@[j] is None,
                forall|j: int| 0 <= j < i ==> ask_levels@[j] is None,
            decreases num_levels - i,
        {
            bid_levels.push(None);
            ask_levels.push(None);
            i = i + 1;
        }
        let r = TickBasedOrderBook {
            contract,
            bid_levels,
            ask_levels,
            bid_bitmap: FastBitmap::new(num_levels),
            ask_bitmap: FastBitmap::new(num_levels),
            best_bid_idx: None,
            best_ask_idx: None,
            next_order_id: 1,
            order_locations: HashMap::new(),
        };
        r
    }

    /// Maps a price to its level index; `None` for prices the book rejects.
    pub fn price_to_index(&self, price: u64) -> (r: Option<usize>)
        requires
            self.contract_spec().wf(),
        ensures
            match r {
                Some(i) => spec_valid_price(self.contract_spec(), price) && i == spec_price_index(
                    self.contract_spec(),
                    price,
                ) && (i as int) < self.num_levels(),
                None => !spec_valid_price(self.contract_spec(), price),
            },
    {
        if price < self.contract.min_price || price > self.contract.max_price {
            return None;
        }
        if (price - self.contract.min_price) % self.contract.tick_size != 0 {
            return None;
        }
        proof {
            lemma_price_index(self.contract, price);
        }
        Some(((price - self.contract.min_price) / self.contract.tick_size) as usize)
    }

    /// Price of level `index`.
    pub fn index_to_price(&self, index: usize) -> (p: u64)
        requires
            self.contract_spec().wf(),
            (index as int) < self.num_levels(),
        ensures
            p == spec_index_to_price(self.contract_spec(), index as int),
            spec_valid_price(self.contract_spec(), p),
    {
        proof {
            lemma_index_price(self.contract, index as int);
        }
        self.contract.min_price + (index as u64) * self.contract.tick_size
    }

    /// Best (highest) resting buy price.
    pub fn best_bid(&self) -> (r: Option<u64>)
        requires
            self.inv(),
        ensures
            match r {
                Some(p) => exists|m: int|
                    0 <= m < self.num_levels() && #[trigger] self.bids()[m].len() > 0 && p
                        == spec_index_to_price(self.contract_spec(), m) && (forall|j: int|
                        m < j < self.num_levels() ==> self.bids()[j].len() == 0),
                None => forall|j: int| 0 <= j < self.num_levels() ==> self.bids()[j].len() == 0,
            },
    {
        match self.best_bid_idx {
            Some(m) => {
                let p = self.index_to_price(m);
                proof {
                    assert(self.bids()[m as int].len() > 0);
                }
                Some(p)
            },
            None => None,
        }
    }

    /// Best (lowest) resting sell price.
    pub fn best_ask(&self) -> (r: Option<u64>)
        requires
            self.inv(),
        ensures
            match r {
                Some(p) => exists|m: int|
                    0 <= m < self.num_levels() && #[trigger] self.asks()[m].len() > 0 && p
                        == spec_index_to_price(self.contract_spec(), m) && (forall|j: int|
                        0 <= j < m ==> self.asks()[j].len() == 0),
                None => forall|j: int| 0 <= j < self.num_levels() ==> self.asks()[j].len() == 0,
            },
    {
        match self.best_ask_idx {
            Some(m) => {
                let p = self.index_to_price(m);
                proof {
                    assert(self.asks()[m as int].len() > 0);
                }
                Some(p)
            },
            None => None,
        }
    }

    /// Ticks between best ask and best bid; `None` unless both sides rest.
    /// Zero would mean a crossed book, which the invariant rules out, so a
    /// `Some` answer is always positive.
    pub fn spread_ticks(&self) -> (r: Option<usize>)
        requires
            self.inv(),
        ensures
            match r {
                Some(s) => s > 0 && exists|b: int, a: int|
                    0 <= b < a < self.num_levels() && #[trigger] self.bids()[b].len() > 0 && (
                    #[trigger] self.asks()[a].len() > 0) && s == a - b && (forall|j: int|
                        b < j < self.num_levels() ==> self.bids()[j].len() == 0) && (forall|j: int|
                        0 <= j < a ==> self.asks()[j].len() == 0),
                None => (forall|j: int| 0 <= j < self.num_levels() ==> self.bids()[j].len() == 0)
                    || (forall|j: int| 0 <= j < self.num_levels() ==> self.asks()[j].len() == 0),
            },
    {
        match (self.best_bid_idx, self.best_ask_idx) {
            (Some(bid), Some(ask)) => {
                proof {
                    assert(self.bids()[bid as int].len() > 0);
                    assert(self.asks()[ask as int].len() > 0);
                }
                if ask > bid {
                    Some(ask - bid)
                } else {
                    Some(0)
                }
            },
            _ => None,
        }
    }
}

/// Everything the matching of one order produces and changes: the two sides
/// afterwards, the trades in generation order, the confirmation, and the next
/// order id.
pub struct MatchOut {
    pub bids: Seq<Seq<OrderNode>>,
    pub asks: Seq<Seq<OrderNode>>,
    pub trades: Seq<TradeNotification>,
    pub confirmation: Option<OrderConfirmation>,
    pub next_order_id: u64,
}

/// Full functional model of `match_order`: an invalid price (or an exhausted
/// id space) changes nothing; otherwise a buy sweeps the asks upward from the
/// lowest level to the request's level and a sell sweeps the bids downward
/// from the highest, and any residual quantity rests on the request's own
/// side if its level has room, in which case a confirmation is issued.
pub open spec fn spec_match(
    c: ContractSpec,
    bids: Seq<Seq<OrderNode>>,
    asks: Seq<Seq<OrderNode>>,
    next_id: u64,
    r: NewOrderRequest,
) -> MatchOut {
    if !spec_valid_price(c, r.price) || next_id == u64::MAX {
        MatchOut { bids, asks, trades: Seq::empty(), confirmation: None, next_order_id: next_id }
    } else {
        let limit = spec_price_index(c, r.price);
        let is_buy = r.order_type is Buy;
        let s = if is_buy {
            sweep(asks, 0, limit, true, r.quantity)
        } else {
            sweep(bids, bids.len() - 1, limit, false, r.quantity)
        };
        let node = OrderNode {
            user_id: r.user_id,
            order_id: next_id,
            price: r.price,
            quantity: s.remaining,
            cancelled: false,
        };
        let own = if is_buy {
            bids
        } else {
            asks
        };
        let rests = s.remaining > 0 && own[limit].len() < c.queue_capacity;
        let own2 = if rests {
            own.update(limit, own[limit].push(node))
        } else {
            own
        };
        MatchOut {
            bids: if is_buy {
                own2
            } else {
                s.levels
            },
            asks: if is_buy {
                s.levels
            } else {
                own2
            },
            trades: sweep_trades(c, s.fills, is_buy, r.user_id, next_id, r.symbol),
            confirmation: if rests {
                Some(OrderConfirmation { order_id: next_id, user_id: r.user_id })
            } else {
                None
            },
            next_order_id: (next_id + 1) as u64,
        }
    }
}

impl TickBasedOrderBook {
    /// Matches `remaining` against one level's queue, recording a trade per
    /// fill and dropping fully consumed makers' ids from the cancel map.
    fn fill_level(
        &mut self,
        queue: &mut RingBuffer<OrderNode>,
        remaining: u64,
        level_price: u64,
        is_buy: bool,
        taker_user: u64,
        taker_id: u64,
        symbol: &String,
        trades: &mut TradeVec,
    ) -> (rem2: u64)
        requires
            old(queue).wf(),
            forall|k: int| 0 <= k < old(queue)@.len() ==> (#[trigger] old(queue)@[k]).quantity > 0,
        ensures
            final(queue).wf(),
            final(queue).spec_capacity() == old(queue).spec_capacity(),
            final(self).bid_levels == old(self).bid_levels,
            final(self).ask_levels == old(self).ask_levels,
            final(self).bid_bitmap == old(self).bid_bitmap,
            final(self).ask_bitmap == old(self).ask_bitmap,
            final(self).best_bid_idx == old(self).best_bid_idx,
            final(self).best_ask_idx == old(self).best_ask_idx,
            final(self).next_order_id == old(self).next_order_id,
            final(self).contract == old(self).contract,
            ({
                let lf = level_fill(old(queue)@, remaining);
                &&& final(queue)@ == lf.1
                &&& rem2 == lf.2
                &&& trade_seq(*final(trades)) == trade_seq(*old(trades)) + fills_trades(
                    lf.0,
                    level_price,
                    is_buy,
                    taker_user,
                    taker_id,
                    *symbol,
                )
                &&& final(self).order_locations@ == old(self).order_locations@.remove_keys(
                    prefix_ids(old(queue)@, old(queue)@.len() - lf.1.len()),
                )
            }),
    {
        let ghost q0 = queue@;
        let ghost m0 = self.order_locations@;
        let ghost t0 = trade_seq(*trades);
        let ghost mut gdone: Seq<Fill> = Seq::empty();
        let mut rem = remaining;
        proof {
            assert(level_fill(q0, remaining).0 =~= gdone + level_fill(q0, remaining).0);
            assert(trade_seq(*trades) =~= t0 + fills_trades(
                gdone,
                level_price,
                is_buy,
                taker_user,
                taker_id,
                *symbol,
            ));
            assert(prefix_ids(q0, 0) =~= Set::<u64>::empty());
            assert(self.order_locations@ =~= m0.remove_keys(prefix_ids(q0, 0)));
        }
        while rem > 0 && queue.len() > 0
            invariant
                queue.wf(),
                queue.spec_capacity() == old(queue).spec_capacity(),
                forall|k: int| 0 <= k < queue@.len() ==> (#[trigger] queue@[k]).quantity > 0,
                forall|k: int| 0 <= k < q0.len() ==> (#[trigger] q0[k]).quantity > 0,
                queue@.len() <= q0.len(),
                rem > 0 ==> queue@ == q0.subrange(q0.len() - queue@.len(), q0.len() as int),
                level_fill(q0, remaining).0 == gdone + level_fill(queue@, rem).0,
                level_fill(q0, remaining).1 == level_fill(queue@, rem).1,
                level_fill(q0, remaining).2 == level_fill(queue@, rem).2,
                trade_seq(*trades) == t0 + fills_trades(
                    gdone,
                    level_price,
                    is_buy,
                    taker_user,
                    taker_id,
                    *symbol,
                ),
                self.order_locations@ == m0.remove_keys(
                    prefix_ids(q0, q0.len() - queue@.len()),
                ),
                self.bid_levels == old(self).bid_levels,
                self.ask_levels == old(self).ask_levels,
                self.bid_bitmap == old(self).bid_bitmap,
                self.ask_bitmap == old(self).ask_bitmap,
                self.best_bid_idx == old(self).best_bid_idx,
                self.best_ask_idx == old(self).best_ask_idx,
                self.next_order_id == old(self).next_order_id,
                self.contract == old(self).contract,
            decreases queue@.len(), rem,
        {
            let ghost qh = queue@;
            let ghost n = q0.len() - qh.len();
            let front = match queue.front() {
                Some(o) => *o,
                None => {
                    proof {
                        assert(false);
                    }
                    OrderNode { user_id: 0, order_id: 0, price: 0, quantity: 0, cancelled: false }
                },
            };
            let fill_qty = if rem < front.quantity {
                rem
            } else {
                front.quantity
            };
            let (bu, bo, su, so) = if is_buy {
                (taker_user, taker_id, front.user_id, front.order_id)
            } else {
                (front.user_id, front.order_id, taker_user, taker_id)
            };
            let t = TradeNotification {
                trade_id: 0,
                symbol: symbol.clone(),
                matched_price: level_price,
                matched_quantity: fill_qty,
                buyer_user_id: bu,
                buyer_order_id: bo,
                seller_user_id: su,
                seller_order_id: so,
                timestamp: 0,
            };
            trades.push(t);
            let ghost f = Fill { maker: front, qty: fill_qty };
            proof {
                assert(t == fill_trade(f, level_price, is_buy, taker_user, taker_id, *symbol));
                gdone = gdone.push(f);
                assert(fills_trades(gdone, level_price, is_buy, taker_user, taker_id, *symbol)
                    =~= fills_trades(
                    gdone.drop_last(),
                    level_price,
                    is_buy,
                    taker_user,
                    taker_id,
                    *symbol,
                ).push(t));
            }
            if front.quantity <= rem {
                let popped = queue.pop();
                let removed = self.order_locations.remove(&front.order_id);
                rem = rem - front.quantity;
                proof {
                    assert(qh == q0.subrange(n as int, q0.len() as int));
                    assert(front == q0[n as int]);
                    assert(queue@ =~= q0.subrange(n + 1, q0.len() as int));
                    assert(self.order_locations@ =~= m0.remove_keys(prefix_ids(q0, n + 1))) by {
                        assert(self.order_locations@ == m0.remove_keys(prefix_ids(q0, n)).remove(
                            front.order_id,
                        ));
                        assert forall|id: u64| #[trigger] prefix_ids(q0, n + 1).contains(id)
                            implies prefix_ids(q0, n).contains(id) || id == front.order_id by {
                            let kk = choose|kk: int|
                                0 <= kk < n + 1 && kk < q0.len() && q0[kk].order_id == id;
                            if kk < n {
                                assert(prefix_ids(q0, n).contains(id));
                            }
                        }
                        assert forall|id: u64|
                            prefix_ids(q0, n).contains(id)
                                || id == front.order_id implies #[trigger] prefix_ids(
                            q0,
                            n + 1,
                        ).contains(id) by {
                            if prefix_ids(q0, n).contains(id) {
                                let kk = choose|kk: int|
                                    0 <= kk < n && kk < q0.len() && q0[kk].order_id == id;
                                assert(0 <= kk < n + 1 && kk < q0.len() && q0[kk].order_id == id);
                            } else {
                                assert(0 <= n < n + 1 && n < q0.len() && q0[n as int].order_id
                                    == id);
                            }
                        }
                    }
                    assert(level_fill(qh, (rem + front.quantity) as u64).0 =~= seq![f]
                        + level_fill(queue@, rem).0);
                    assert(gdone + level_fill(queue@, rem).0 =~= gdone.drop_last() + (seq![f]
                        + level_fill(queue@, rem).0));
                }
            } else {
                let reduced = OrderNode { quantity: front.quantity - rem, ..front };
                queue.set_front(reduced);
                rem = 0;
                proof {
                    assert(level_fill(qh, fill_qty).0 =~= seq![f]);
                    assert(level_fill(qh, fill_qty).1 =~= qh.update(0, reduced));
                    assert(queue@ =~= qh.update(0, reduced));
                    assert(level_fill(queue@, 0u64).0 =~= Seq::<Fill>::empty());
                    assert(gdone + level_fill(queue@, 0u64).0 =~= gdone.drop_last() + seq![f]);
                    assert(gdone.drop_last() + seq![f] =~= gdone);
                }
            }
        }
        proof {
            let lf = level_fill(q0, remaining);
            assert(level_fill(queue@, rem).0 =~= Seq::<Fill>::empty());
            assert(lf.0 =~= gdone);
            assert(lf.1 == level_fill(queue@, rem).1 && level_fill(queue@, rem).1 == queue@);
        }
        rem
    }

    /// Sweeps the ask side upward from the best ask to `limit_idx` for an
    /// incoming buy, and recomputes the best-ask cache afterwards.
    fn sweep_asks(
        &mut self,
        limit_idx: usize,
        quantity: u64,
        taker_user: u64,
        taker_id: u64,
        symbol: &String,
        trades: &mut TradeVec,
    ) -> (rem: u64)
        requires
            old(self).inv(),
            (limit_idx as int) < old(self).num_levels(),
        ensures
            final(self).inv(),
            final(self).contract == old(self).contract,
            final(self).next_order_id == old(self).next_order_id,
            final(self).bid_levels == old(self).bid_levels,
            final(self).bid_bitmap == old(self).bid_bitmap,
            final(self).best_bid_idx == old(self).best_bid_idx,
            ({
                let s = sweep(old(self).asks(), 0, limit_idx as int, true, quantity);
                &&& final(self).asks() == s.levels
                &&& rem == s.remaining
                &&& trade_seq(*final(trades)) == trade_seq(*old(trades)) + sweep_trades(
                    old(self).contract,
                    s.fills,
                    true,
                    taker_user,
                    taker_id,
                    *symbol,
                )
            }),
    {
        let ghost c = old(self).contract;
        let ghost asks0 = old(self).asks();
        let ghost limit = limit_idx as int;
        let ghost total = sweep(asks0, 0, limit, true, quantity);
        let ghost t0 = trade_seq(*trades);
        let ghost mut gdone: Seq<(int, Fill)> = Seq::empty();
        let mut remaining = quantity;
        let mut cur: Option<usize> = None;
        match self.best_ask_idx {
            Some(a) => {
                if a <= limit_idx {
                    cur = Some(a);
                    proof {
                        lemma_sweep_skip_up(asks0, 0, a as int, limit, quantity);
                    }
                } else {
                    proof {
                        lemma_sweep_skip_up(asks0, 0, limit + 1, limit, quantity);
                    }
                }
            },
            None => {
                proof {
                    lemma_sweep_skip_up(asks0, 0, limit + 1, limit, quantity);
                }
            },
        }
        proof {
            assert(total.fills =~= gdone + total.fills);
            assert(trade_seq(*trades) =~= t0 + sweep_trades(
                c,
                gdone,
                true,
                taker_user,
                taker_id,
                *symbol,
            ));
        }
        while cur.is_some() && remaining > 0
            invariant
                old(self).inv(),
                self.contract == old(self).contract,
                self.bid_levels == old(self).bid_levels,
                self.bid_bitmap == old(self).bid_bitmap,
                self.best_bid_idx == old(self).best_bid_idx,
                self.best_ask_idx == old(self).best_ask_idx,
                self.next_order_id == old(self).next_order_id,
                c == old(self).contract,
                asks0 == old(self).asks(),
                limit == limit_idx as int,
                limit < self.num_levels(),
                total == sweep(asks0, 0, limit, true, quantity),
                Self::side_wf(
                    self.ask_levels@,
                    self.ask_bitmap,
                    self.contract.queue_capacity as int,
                    self.num_levels(),
                ),
                side_orders_wf(c, self.asks(), self.next_order_id),
                side_ids_unique(self.asks()),
                self.locations_ok(),
                ({
                    let gpos = match cur {
                        Some(ci) => ci as int,
                        None => limit + 1,
                    };
                    let rest = sweep(self.asks(), gpos, limit, true, remaining);
                    &&& total.fills == gdone + rest.fills
                    &&& total.levels == rest.levels
                    &&& total.remaining == rest.remaining
                }),
                trade_seq(*trades) == t0 + sweep_trades(
                    c,
                    gdone,
                    true,
                    taker_user,
                    taker_id,
                    *symbol,
                ),
                match cur {
                    Some(ci) => ci <= limit_idx && (ci as int) < self.num_levels()
                        && self.asks()[ci as int].len() > 0,
                    None => true,
                },
            decreases (match cur {
                Some(ci) => limit_idx + 1 - ci,
                None => 0,
            }),
        {
            let idx = cur.unwrap();
            let level_price = self.index_to_price(idx);
            let ghost pre = *self;
            let ghost rem_in = remaining;
            let mut slot: Option<RingBuffer<OrderNode>> = None;
            self.ask_levels.set_and_swap(idx, &mut slot);
            let mut queue = match slot {
                Some(q) => q,
                None => {
                    proof {
                        assert(false);
                    }
                    RingBuffer::with_capacity(1)
                },
            };
            let ghost q0 = queue@;
            proof {
                assert(q0 == pre.asks()[idx as int]);
                assert(forall|k: int|
                    0 <= k < q0.len() ==> (#[trigger] q0[k]).quantity > 0) by {
                    assert(side_orders_wf(c, pre.asks(), pre.next_order_id));
                }
            }
            let rem2 = self.fill_level(
                &mut queue,
                remaining,
                level_price,
                true,
                taker_user,
                taker_id,
                symbol,
                trades,
            );
            let ghost lf = level_fill(q0, rem_in);
            let empty_now = queue.is_empty();
            if empty_now {
                self.ask_bitmap.set(idx, false);
            } else {
                self.ask_levels.set(idx, Some(queue));
            }
            proof {
                assert(self.asks() =~~= pre.asks().update(idx as int, lf.1));
                lemma_level_fill_props(q0, rem_in);
                lemma_fill_step(
                    self.bids(),
                    pre.asks(),
                    pre.order_locations@,
                    self.num_levels(),
                    c,
                    self.next_order_id,
                    false,
                    idx as int,
                    lf.1,
                    self.order_locations@,
                );
                // One sweep step at this level.
                let tagged = lf.0.map(|_k: int, f: Fill| (idx as int, f));
                let rest_head = sweep(pre.asks(), idx as int, limit, true, rem_in);
                let rest_next = sweep(self.asks(), idx as int + 1, limit, true, rem2);
                assert(rest_head.fills == tagged + rest_next.fills && rest_head.levels
                    == rest_next.levels && rest_head.remaining == rest_next.remaining);
                let gprev = gdone;
                gdone = gdone + tagged;
                assert(total.fills =~= gdone + rest_next.fills);
                let new_tr = fills_trades(lf.0, level_price, true, taker_user, taker_id, *symbol);
                assert(sweep_trades(c, gdone, true, taker_user, taker_id, *symbol) =~= sweep_trades(
                    c,
                    gprev,
                    true,
                    taker_user,
                    taker_id,
                    *symbol,
                ) + new_tr) by {
                    assert forall|k: int| 0 <= k < gdone.len() implies sweep_trades(
                        c,
                        gdone,
                        true,
                        taker_user,
                        taker_id,
                        *symbol,
                    )[k] == (sweep_trades(c, gprev, true, taker_user, taker_id, *symbol)
                        + new_tr)[k] by {
                        if k < gprev.len() {
                            assert(gdone[k] == gprev[k]);
                        } else {
                            assert(gdone[k] == tagged[k - gprev.len()]);
                            assert(tagged[k - gprev.len()] == (idx as int, lf.0[k - gprev.len()]));
                        }
                    }
                }
                assert(trade_seq(*trades) =~= t0 + sweep_trades(
                    c,
                    gdone,
                    true,
                    taker_user,
                    taker_id,
                    *symbol,
                ));
            }
            remaining = rem2;
            let nxt = self.ask_bitmap.find_next_one(idx);
            let mut new_cur: Option<usize> = None;
            match nxt {
                Some(n) => {
                    if n <= limit_idx {
                        new_cur = Some(n);
                        proof {
                            assert forall|j: int| idx as int + 1 <= j < n as int implies (
                            #[trigger] self.asks()[j]).len() == 0 by {
                                assert(!self.ask_bitmap.bit(j));
                            }
                            lemma_sweep_skip_up(
                                self.asks(),
                                idx as int + 1,
                                n as int,
                                limit,
                                remaining,
                            );
                            assert(self.asks()[n as int].len() > 0) by {
                                assert(self.ask_bitmap.bit(n as int));
                            }
                        }
                    } else {
                        proof {
                            assert forall|j: int| idx as int + 1 <= j < limit + 1 implies (
                            #[trigger] self.asks()[j]).len() == 0 by {
                                assert(!self.ask_bitmap.bit(j));
                            }
                            lemma_sweep_skip_up(
                                self.asks(),
                                idx as int + 1,
                                limit + 1,
                                limit,
                                remaining,
                            );
                        }
                    }
                },
                None => {
                    proof {
                        assert forall|j: int| idx as int + 1 <= j < limit + 1 implies (
                        #[trigger] self.asks()[j]).len() == 0 by {
                            assert(!self.ask_bitmap.bit(j));
                        }
                        lemma_sweep_skip_up(
                            self.asks(),
                            idx as int + 1,
                            limit + 1,
                            limit,
                            remaining,
                        );
                    }
                },
            }
            cur = new_cur;
        }
        let first = self.ask_bitmap.find_first_one();
        self.best_ask_idx = first;
        proof {
            let gpos = match cur {
                Some(ci) => ci as int,
                None => limit + 1,
            };
            assert(sweep(self.asks(), gpos, limit, true, remaining).fills =~= Seq::<(
                int,
                Fill,
            )>::empty());
            assert(total.fills =~= gdone);
            assert(total.levels == self.asks() && total.remaining == remaining);
            lemma_sweep_range(asks0, 0, limit, true, quantity);
            // The ask cache is correct again, and the book stays uncrossed.
            match self.best_bid_idx {
                Some(b) => {
                    match self.best_ask_idx {
                        Some(a) => {
                            assert(self.asks()[a as int].len() > 0);
                            match old(self).best_ask_idx {
                                Some(oa) => {
                                    if (a as int) < oa as int {
                                        assert(total.levels[a as int].len() <= asks0[a as int].len());
                                        assert(asks0[a as int].len() == 0);
                                        assert(false);
                                    }
                                    assert((b as int) < oa as int);
                                },
                                None => {
                                    assert(asks0[a as int].len() == 0);
                                    assert(total.levels[a as int].len() <= asks0[a as int].len());
                                    assert(false);
                                },
                            }
                        },
                        None => {},
                    }
                },
                None => {},
            }
        }
        remaining
    }

    /// Sweeps the bid side downward from the best bid to `limit_idx` for an
    /// incoming sell, and recomputes the best-bid cache afterwards.
    fn sweep_bids(
        &mut self,
        limit_idx: usize,
        quantity: u64,
        taker_user: u64,
        taker_id: u64,
        symbol: &String,
        trades: &mut TradeVec,
    ) -> (rem: u64)
        requires
            old(self).inv(),
            (limit_idx as int) < old(self).num_levels(),
        ensures
            final(self).inv(),
            final(self).contract == old(self).contract,
            final(self).next_order_id == old(self).next_order_id,
            final(self).ask_levels == old(self).ask_levels,
            final(self).ask_bitmap == old(self).ask_bitmap,
            final(self).best_ask_idx == old(self).best_ask_idx,
            ({
                let s = sweep(
                    old(self).bids(),
                    old(self).num_levels() - 1,
                    limit_idx as int,
                    false,
                    quantity,
                );
                &&& final(self).bids() == s.levels
                &&& rem == s.remaining
                &&& trade_seq(*final(trades)) == trade_seq(*old(trades)) + sweep_trades(
                    old(self).contract,
                    s.fills,
                    false,
                    taker_user,
                    taker_id,
                    *symbol,
                )
            }),
    {
        let ghost c = old(self).contract;
        let ghost bids0 = old(self).bids();
        let ghost limit = limit_idx as int;
        let ghost top = old(self).num_levels() - 1;
        let ghost total = sweep(bids0, top, limit, false, quantity);
        let ghost t0 = trade_seq(*trades);
        let ghost mut gdone: Seq<(int, Fill)> = Seq::empty();
        let mut remaining = quantity;
        let mut cur: Option<usize> = None;
        match self.best_bid_idx {
            Some(b) => {
                if b >= limit_idx {
                    cur = Some(b);
                    proof {
                        lemma_sweep_skip_down(bids0, top, b as int, limit, quantity);
                    }
                } else {
                    proof {
                        lemma_sweep_skip_down(bids0, top, limit - 1, limit, quantity);
                    }
                }
            },
            None => {
                proof {
                    lemma_sweep_skip_down(bids0, top, limit - 1, limit, quantity);
                }
            },
        }
        proof {
            assert(total.fills =~= gdone + total.fills);
            assert(trade_seq(*trades) =~= t0 + sweep_trades(
                c,
                gdone,
                false,
                taker_user,
                taker_id,
                *symbol,
            ));
        }
        while cur.is_some() && remaining > 0
            invariant
                old(self).inv(),
                self.contract == old(self).contract,
                self.ask_levels == old(self).ask_levels,
                self.ask_bitmap == old(self).ask_bitmap,
                self.best_ask_idx == old(self).best_ask_idx,
                self.best_bid_idx == old(self).best_bid_idx,
                self.next_order_id == old(self).next_order_id,
                c == old(self).contract,
                bids0 == old(self).bids(),
                limit == limit_idx as int,
                limit < self.num_levels(),
                top == self.num_levels() - 1,
                total == sweep(bids0, top, limit, false, quantity),
                Self::side_wf(
                    self.bid_levels@,
                    self.bid_bitmap,
                    self.contract.queue_capacity as int,
                    self.num_levels(),
                ),
                side_orders_wf(c, self.bids(), self.next_order_id),
                side_ids_unique(self.bids()),
                self.locations_ok(),
                ({
                    let gpos = match cur {
                        Some(ci) => ci as int,
                        None => limit - 1,
                    };
                    let rest = sweep(self.bids(), gpos, limit, false, remaining);
                    &&& total.fills == gdone + rest.fills
                    &&& total.levels == rest.levels
                    &&& total.remaining == rest.remaining
                }),
                trade_seq(*trades) == t0 + sweep_trades(
                    c,
                    gdone,
                    false,
                    taker_user,
                    taker_id,
                    *symbol,
                ),
                match cur {
                    Some(ci) => limit_idx <= ci && (ci as int) < self.num_levels()
                        && self.bids()[ci as int].len() > 0,
                    None => true,
                },
            decreases (match cur {
                Some(ci) => ci + 1 - limit_idx,
                None => 0,
            }),
        {
            let idx = cur.unwrap();
            let level_price = self.index_to_price(idx);
            let ghost pre = *self;
            let ghost rem_in = remaining;
            let mut slot: Option<RingBuffer<OrderNode>> = None;
            self.bid_levels.set_and_swap(idx, &mut slot);
            let mut queue = match slot {
                Some(q) => q,
                None => {
                    proof {
                        assert(false);
                    }
                    RingBuffer::with_capacity(1)
                },
            };
            let ghost q0 = queue@;
            proof {
                assert(q0 == pre.bids()[idx as int]);
                assert(forall|k: int| 0 <= k < q0.len() ==> (#[trigger] q0[k]).quantity > 0) by {
                    assert(side_orders_wf(c, pre.bids(), pre.next_order_id));
                }
            }
            let rem2 = self.fill_level(
                &mut queue,
                remaining,
                level_price,
                false,
                taker_user,
                taker_id,
                symbol,
                trades,
            );
            let ghost lf = level_fill(q0, rem_in);
            let empty_now = queue.is_empty();
            if empty_now {
                self.bid_bitmap.set(idx, false);
            } else {
                self.bid_levels.set(idx, Some(queue));
            }
            proof {
                assert(self.bids() =~~= pre.bids().update(idx as int, lf.1));
                lemma_level_fill_props(q0, rem_in);
                lemma_fill_step(
                    pre.bids(),
                    self.asks(),
                    pre.order_locations@,
                    self.num_levels(),
                    c,
                    self.next_order_id,
                    true,
                    idx as int,
                    lf.1,
                    self.order_locations@,
                );
                let tagged = lf.0.map(|_k: int, f: Fill| (idx as int, f));
                let rest_head = sweep(pre.bids(), idx as int, limit, false, rem_in);
                let rest_next = sweep(self.bids(), idx as int - 1, limit, false, rem2);
                assert(rest_head.fills == tagged + rest_next.fills && rest_head.levels
                    == rest_next.levels && rest_head.remaining == rest_next.remaining);
                let gprev = gdone;
                gdone = gdone + tagged;
                assert(total.fills =~= gdone + rest_next.fills);
                let new_tr = fills_trades(lf.0, level_price, false, taker_user, taker_id, *symbol);
                assert(sweep_trades(c, gdone, false, taker_user, taker_id, *symbol)
                    =~= sweep_trades(c, gprev, false, taker_user, taker_id, *symbol) + new_tr) by {
                    assert forall|k: int| 0 <= k < gdone.len() implies sweep_trades(
                        c,
                        gdone,
                        false,
                        taker_user,
                        taker_id,
                        *symbol,
                    )[k] == (sweep_trades(c, gprev, false, taker_user, taker_id, *symbol)
                        + new_tr)[k] by {
                        if k < gprev.len() {
                            assert(gdone[k] == gprev[k]);
                        } else {
                            assert(gdone[k] == tagged[k - gprev.len()]);
                            assert(tagged[k - gprev.len()] == (idx as int, lf.0[k - gprev.len()]));
                        }
                    }
                }
                assert(trade_seq(*trades) =~= t0 + sweep_trades(
                    c,
                    gdone,
                    false,
                    taker_user,
                    taker_id,
                    *symbol,
                ));
            }
            remaining = rem2;
            let nxt = self.bid_bitmap.find_prev_one(idx);
            let mut new_cur: Option<usize> = None;
            match nxt {
                Some(n) => {
                    if n >= limit_idx {
                        new_cur = Some(n);
                        proof {
                            assert forall|j: int| (n as int) < j <= idx as int - 1 implies (
                            #[trigger] self.bids()[j]).len() == 0 by {
                                assert(!self.bid_bitmap.bit(j));
                            }
                            lemma_sweep_skip_down(
                                self.bids(),
                                idx as int - 1,
                                n as int,
                                limit,
                                remaining,
                            );
                            assert(self.bids()[n as int].len() > 0) by {
                                assert(self.bid_bitmap.bit(n as int));
                            }
                        }
                    } else {
                        proof {
                            assert forall|j: int| limit - 1 < j <= idx as int - 1 implies (
                            #[trigger] self.bids()[j]).len() == 0 by {
                                assert(!self.bid_bitmap.bit(j));
                            }
                            lemma_sweep_skip_down(
                                self.bids(),
                                idx as int - 1,
                                limit - 1,
                                limit,
                                remaining,
                            );
                        }
                    }
                },
                None => {
                    proof {
                        assert forall|j: int| limit - 1 < j <= idx as int - 1 implies (
                        #[trigger] self.bids()[j]).len() == 0 by {
                            assert(!self.bid_bitmap.bit(j));
                        }
                        lemma_sweep_skip_down(
                            self.bids(),
                            idx as int - 1,
                            limit - 1,
                            limit,
                            remaining,
                        );
                    }
                },
            }
            cur = new_cur;
        }
        let last = self.bid_bitmap.find_last_one();
        self.best_bid_idx = last;
        proof {
            let gpos = match cur {
                Some(ci) => ci as int,
                None => limit - 1,
            };
            assert(sweep(self.bids(), gpos, limit, false, remaining).fills =~= Seq::<(
                int,
                Fill,
            )>::empty());
            assert(total.fills =~= gdone);
            assert(total.levels == self.bids() && total.remaining == remaining);
            lemma_sweep_range(bids0, top, limit, false, quantity);
            match self.best_ask_idx {
                Some(a) => {
                    match self.best_bid_idx {
                        Some(b) => {
                            assert(self.bids()[b as int].len() > 0);
                            match old(self).best_bid_idx {
                                Some(ob) => {
                                    if (b as int) > ob as int {
                                        assert(total.levels[b as int].len() <= bids0[b as int].len());
                                        assert(bids0[b as int].len() == 0);
                                        assert(false);
                                    }
                                    assert((ob as int) < a as int);
                                },
                                None => {
                                    assert(bids0[b as int].len() == 0);
                                    assert(total.levels[b as int].len() <= bids0[b as int].len());
                                    assert(false);
                                },
                            }
                        },
                        None => {},
                    }
                },
                None => {},
            }
        }
        remaining
    }

    /// Rests a residual buy at level `idx`, creating the level on demand;
    /// reports whether the queue had room.
    fn add_bid_order(&mut self, idx: usize, user_id: u64, quantity: u64, order_id: u64) -> (pushed:
        bool)
        requires
            old(self).inv(),
            (idx as int) < old(self).num_levels(),
            quantity > 0,
            order_id < old(self).spec_next_order_id(),
            !old(self).location_ids().contains(order_id),
            match old(self).best_ask_idx {
                Some(a) => idx < a,
                None => true,
            },
        ensures
            final(self).inv(),
            final(self).contract == old(self).contract,
            final(self).next_order_id == old(self).next_order_id,
            final(self).ask_levels == old(self).ask_levels,
            final(self).ask_bitmap == old(self).ask_bitmap,
            final(self).best_ask_idx == old(self).best_ask_idx,
            pushed <==> old(self).bids()[idx as int].len() < old(self).contract.queue_capacity,
            final(self).bids() == (if pushed {
                old(self).bids().update(
                    idx as int,
                    old(self).bids()[idx as int].push(
                        OrderNode {
                            user_id,
                            order_id,
                            price: spec_index_to_price(old(self).contract, idx as int) as u64,
                            quantity,
                            cancelled: false,
                        },
                    ),
                )
            } else {
                old(self).bids()
            }),
    {
        let price = self.index_to_price(idx);
        let node = OrderNode { user_id, order_id, price, quantity, cancelled: false };
        let ghost pre = *self;
        let mut slot: Option<RingBuffer<OrderNode>> = None;
        self.bid_levels.set_and_swap(idx, &mut slot);
        let mut queue = match slot {
            Some(q) => q,
            None => RingBuffer::with_capacity(self.contract.queue_capacity),
        };
        let pushed = match queue.push(node) {
            Ok(()) => true,
            Err(_) => false,
        };
        if pushed {
            self.order_locations.insert(
                order_id,
                OrderLocation { price_idx: idx, is_bid: true },
            );
        }
        self.bid_levels.set(idx, Some(queue));
        self.bid_bitmap.set(idx, true);
        let new_best = match self.best_bid_idx {
            None => Some(idx),
            Some(b) => if idx > b {
                Some(idx)
            } else {
                Some(b)
            },
        };
        self.best_bid_idx = new_best;
        proof {
            if pushed {
                assert(self.bids() =~~= pre.bids().update(
                    idx as int,
                    pre.bids()[idx as int].push(node),
                ));
                lemma_rest_order(
                    pre.bids(),
                    self.asks(),
                    pre.order_locations@,
                    self.num_levels(),
                    self.contract,
                    self.next_order_id,
                    true,
                    idx as int,
                    node,
                    self.order_locations@,
                );
            } else {
                assert(self.bids() =~~= pre.bids());
            }
        }
        pushed
    }

    /// Rests a residual sell at level `idx`, creating the level on demand;
    /// reports whether the queue had room.
    fn add_ask_order(&mut self, idx: usize, user_id: u64, quantity: u64, order_id: u64) -> (pushed:
        bool)
        requires
            old(self).inv(),
            (idx as int) < old(self).num_levels(),
            quantity > 0,
            order_id < old(self).spec_next_order_id(),
            !old(self).location_ids().contains(order_id),
            match old(self).best_bid_idx {
                Some(b) => idx > b,
                None => true,
            },
        ensures
            final(self).inv(),
            final(self).contract == old(self).contract,
            final(self).next_order_id == old(self).next_order_id,
            final(self).bid_levels == old(self).bid_levels,
            final(self).bid_bitmap == old(self).bid_bitmap,
            final(self).best_bid_idx == old(self).best_bid_idx,
            pushed <==> old(self).asks()[idx as int].len() < old(self).contract.queue_capacity,
            final(self).asks() == (if pushed {
                old(self).asks().update(
                    idx as int,
                    old(self).asks()[idx as int].push(
                        OrderNode {
                            user_id,
                            order_id,
                            price: spec_index_to_price(old(self).contract, idx as int) as u64,
                            quantity,
                            cancelled: false,
                        },
                    ),
                )
            } else {
                old(self).asks()
            }),
    {
        let price = self.index_to_price(idx);
        let node = OrderNode { user_id, order_id, price, quantity, cancelled: false };
        let ghost pre = *self;
        let mut slot: Option<RingBuffer<OrderNode>> = None;
        self.ask_levels.set_and_swap(idx, &mut slot);
        let mut queue = match slot {
            Some(q) => q,
            None => RingBuffer::with_capacity(self.contract.queue_capacity),
        };
        let pushed = match queue.push(node) {
            Ok(()) => true,
            Err(_) => false,
        };
        if pushed {
            self.order_locations.insert(
                order_id,
                OrderLocation { price_idx: idx, is_bid: false },
            );
        }
        self.ask_levels.set(idx, Some(queue));
        self.ask_bitmap.set(idx, true);
        let new_best = match self.best_ask_idx {
            None => Some(idx),
            Some(a) => if idx < a {
                Some(idx)
            } else {
                Some(a)
            },
        };
        self.best_ask_idx = new_best;
        proof {
            if pushed {
                assert(self.asks() =~~= pre.asks().update(
                    idx as int,
                    pre.asks()[idx as int].push(node),
                ));
                lemma_rest_order(
                    self.bids(),
                    pre.asks(),
                    pre.order_locations@,
                    self.num_levels(),
                    self.contract,
                    self.next_order_id,
                    false,
                    idx as int,
                    node,
                    self.order_locations@,
                );
            } else {
                assert(self.asks() =~~= pre.asks());
            }
        }
        pushed
    }
}

impl TickBasedOrderBook {
    /// Matches one incoming order under price-time priority and returns the
    /// generated trades together with a confirmation when a residual rests.
    ///
    /// The whole behaviour is pinned by [`spec_match`]: an invalid price (or
    /// an exhausted id space) leaves the book untouched and returns nothing;
    /// otherwise the opposite side is swept from its best level to the
    /// request's limit and any residual rests on the request's side if its
    /// level has room.
    pub fn match_order(&mut self, request: NewOrderRequest) -> (r: (
        TradeVec,
        Option<OrderConfirmation>,
    ))
        requires
            old(self).inv(),
        ensures
            final(self).inv(),
            final(self).contract_spec() == old(self).contract_spec(),
            ({
                let out = spec_match(
                    old(self).contract_spec(),
                    old(self).bids(),
                    old(self).asks(),
                    old(self).spec_next_order_id(),
                    request,
                );
                &&& final(self).bids() == out.bids
                &&& final(self).asks() == out.asks
                &&& trade_seq(r.0) == out.trades
                &&& r.1 == out.confirmation
                &&& final(self).spec_next_order_id() == out.next_order_id
            }),
    {
        let mut trades = TradeVec::new();
        let ghost c = self.contract;
        let ghost bids0 = self.bids();
        let ghost asks0 = self.asks();
        let ghost next0 = self.next_order_id;
        let request_idx = match self.price_to_index(request.price) {
            Some(i) => i,
            None => {
                proof {
                    assert(trade_seq(trades) =~= spec_match(
                        c,
                        bids0,
                        asks0,
                        next0,
                        request,
                    ).trades);
                }
                return (trades, None);
            },
        };
        if self.next_order_id == u64::MAX {
            proof {
                assert(trade_seq(trades) =~= spec_match(c, bids0, asks0, next0, request).trades);
            }
            return (trades, None);
        }
        let new_order_id = self.next_order_id;
        self.next_order_id = self.next_order_id + 1;
        proof {
            lemma_price_index(c, request.price);
            // Raising the id counter preserves the invariant: resting ids
            // only need to stay below it.
            assert(self.inv()) by {
                assert(side_orders_wf(c, self.bids(), self.next_order_id)) by {
                    assert forall|i: int, k: int|
                        0 <= i < self.bids().len() && 0 <= k < self.bids()[i].len() implies (
                    #[trigger] self.bids()[i][k]).order_id < self.next_order_id by {
                        assert(self.bids()[i][k].order_id < next0);
                    }
                }
                assert(side_orders_wf(c, self.asks(), self.next_order_id)) by {
                    assert forall|i: int, k: int|
                        0 <= i < self.asks().len() && 0 <= k < self.asks()[i].len() implies (
                    #[trigger] self.asks()[i][k]).order_id < self.next_order_id by {
                        assert(self.asks()[i][k].order_id < next0);
                    }
                }
            }
        }
        let mut confirmation: Option<OrderConfirmation> = None;
        match request.order_type {
            OrderType::Buy => {
                let remaining = self.sweep_asks(
                    request_idx,
                    request.quantity,
                    request.user_id,
                    new_order_id,
                    &request.symbol,
                    &mut trades,
                );
                let ghost s = sweep(asks0, 0, request_idx as int, true, request.quantity);
                if remaining > 0 {
                    proof {
                        lemma_sweep_range(asks0, 0, request_idx as int, true, request.quantity);
                        assert(!self.location_ids().contains(new_order_id)) by {
                            if self.order_locations@.contains_key(new_order_id) {
                                let loc = self.order_locations@[new_order_id];
                                let side = if loc.is_bid {
                                    self.bids()
                                } else {
                                    self.asks()
                                };
                                let k = choose|k: int|
                                    0 <= k < side[loc.price_idx as int].len()
                                        && side[loc.price_idx as int][k].order_id == new_order_id;
                                assert(side[loc.price_idx as int][k].order_id < self.next_order_id);
                            }
                        }
                        match self.best_ask_idx {
                            Some(a) => {
                                assert(self.asks()[a as int].len() > 0);
                                if a <= request_idx {
                                    assert(self.asks()[a as int].len() == 0);
                                }
                            },
                            None => {},
                        }
                    }
                    let pushed = self.add_bid_order(
                        request_idx,
                        request.user_id,
                        remaining,
                        new_order_id,
                    );
                    if pushed {
                        confirmation = Some(
                            OrderConfirmation { order_id: new_order_id, user_id: request.user_id },
                        );
                    }
                    proof {
                        lemma_price_index(c, request.price);
                    }
                }
            },
            OrderType::Sell => {
                let remaining = self.sweep_bids(
                    request_idx,
                    request.quantity,
                    request.user_id,
                    new_order_id,
                    &request.symbol,
                    &mut trades,
                );
                let ghost s = sweep(
                    bids0,
                    c.spec_num_levels() - 1,
                    request_idx as int,
                    false,
                    request.quantity,
                );
                if remaining > 0 {
                    proof {
                        lemma_sweep_range(
                            bids0,
                            c.spec_num_levels() - 1,
                            request_idx as int,
                            false,
                            request.quantity,
                        );
                        assert(!self.location_ids().contains(new_order_id)) by {
                            if self.order_locations@.contains_key(new_order_id) {
                                let loc = self.order_locations@[new_order_id];
                                let side = if loc.is_bid {
                                    self.bids()
                                } else {
                                    self.asks()
                                };
                                let k = choose|k: int|
                                    0 <= k < side[loc.price_idx as int].len()
                                        && side[loc.price_idx as int][k].order_id == new_order_id;
                                assert(side[loc.price_idx as int][k].order_id < self.next_order_id);
                            }
                        }
                        match self.best_bid_idx {
                            Some(b) => {
                                assert(self.bids()[b as int].len() > 0);
                                if b >= request_idx {
                                    assert(self.bids()[b as int].len() == 0);
                                }
                            },
                            None => {},
                        }
                    }
                    let pushed = self.add_ask_order(
                        request_idx,
                        request.user_id,
                        remaining,
                        new_order_id,
                    );
                    if pushed {
                        confirmation = Some(
                            OrderConfirmation { order_id: new_order_id, user_id: request.user_id },
                        );
                    }
                    proof {
                        lemma_price_index(c, request.price);
                    }
                }
            },
        }
        (trades, confirmation)
    }
}

impl TickBasedOrderBook {
    /// The book is never crossed at rest: every resting buy sits at a
    /// strictly lower price than every resting sell.
    pub proof fn lemma_uncrossed(&self)
        requires
            self.inv(),
        ensures
            forall|b: int, a: int|
                0 <= b < self.num_levels() && 0 <= a < self.num_levels() && self.bids()[b].len() > 0
                    && self.asks()[a].len() > 0 ==> spec_index_to_price(self.contract_spec(), b)
                    < spec_index_to_price(self.contract_spec(), a),
    {
        assert forall|b: int, a: int|
            0 <= b < self.num_levels() && 0 <= a < self.num_levels() && self.bids()[b].len() > 0
                && self.asks()[a].len() > 0 implies spec_index_to_price(self.contract_spec(), b)
            < spec_index_to_price(self.contract_spec(), a) by {
            match (self.best_bid_idx, self.best_ask_idx) {
                (Some(bb), Some(ba)) => {
                    assert(b <= bb as int) by {
                        if b > bb as int {
                            assert(self.bids()[b].len() == 0);
                        }
                    }
                    assert(a >= ba as int) by {
                        if a < ba as int {
                            assert(self.asks()[a].len() == 0);
                        }
                    }
                    lemma_price_mono(self.contract, b, a);
                },
                (None, _) => {
                    assert(self.bids()[b].len() == 0);
                },
                (_, None) => {
                    assert(self.asks()[a].len() == 0);
                },
            }
        }
    }

    /// The cancel map is exact: it knows an id exactly when some resting
    /// order carries it, and each resting order's id is known.
    pub proof fn lemma_location_ids_exact(&self)
        requires
            self.inv(),
        ensures
            forall|id: u64|
                #[trigger] self.location_ids().contains(id) ==> (exists|i: int|
                    0 <= i < self.num_levels() && (order_at(self.bids(), i, id) || order_at(
                        self.asks(),
                        i,
                        id,
                    ))),
            forall|i: int, k: int|
                0 <= i < self.num_levels() && 0 <= k < self.bids()[i].len()
                    ==> self.location_ids().contains((#[trigger] self.bids()[i][k]).order_id),
            forall|i: int, k: int|
                0 <= i < self.num_levels() && 0 <= k < self.asks()[i].len()
                    ==> self.location_ids().contains((#[trigger] self.asks()[i][k]).order_id),
    {
        assert forall|id: u64| #[trigger] self.location_ids().contains(id) implies (exists|i: int|
            0 <= i < self.num_levels() && (order_at(self.bids(), i, id) || order_at(
                self.asks(),
                i,
                id,
            ))) by {
            let loc = self.order_locations@[id];
            assert((loc.price_idx as int) < self.num_levels() && (order_at(
                self.bids(),
                loc.price_idx as int,
                id,
            ) || order_at(self.asks(), loc.price_idx as int, id)));
        }
    }

    /// A book whose cancel map is empty is entirely empty: every level of
    /// both sides holds no orders. Together with the exactness of the map
    /// this is what makes "submit, then cancel everything" leave no trace.
    pub proof fn lemma_no_locations_empty_book(&self)
        requires
            self.inv(),
            self.location_ids() =~= Set::<u64>::empty(),
        ensures
            forall|i: int| 0 <= i < self.num_levels() ==> self.bids()[i].len() == 0,
            forall|i: int| 0 <= i < self.num_levels() ==> self.asks()[i].len() == 0,
    {
        assert forall|i: int| 0 <= i < self.num_levels() implies self.bids()[i].len() == 0 by {
            if self.bids()[i].len() > 0 {
                assert(self.order_locations@.contains_key(self.bids()[i][0].order_id));
            }
        }
        assert forall|i: int| 0 <= i < self.num_levels() implies self.asks()[i].len() == 0 by {
            if self.asks()[i].len() > 0 {
                assert(self.order_locations@.contains_key(self.asks()[i][0].order_id));
            }
        }
    }
}

/// Total quantity filled by a sequence of trades.
pub open spec fn trades_qty(ts: Seq<TradeNotification>) -> int
    decreases ts.len(),
{
    if ts.len() == 0 {
        0
    } else {
        trades_qty(ts.drop_last()) + ts.last().matched_quantity
    }
}

/// A sweep's trades fill exactly its fills' quantities.
proof fn lemma_sweep_trades_qty(
    c: ContractSpec,
    fills: Seq<(int, Fill)>,
    is_buy: bool,
    taker_user: u64,
    taker_id: u64,
    symbol: String,
)
    ensures
        trades_qty(sweep_trades(c, fills, is_buy, taker_user, taker_id, symbol)) == fills_qty(
            fills,
        ),
    decreases fills.len(),
{
    let ts = sweep_trades(c, fills, is_buy, taker_user, taker_id, symbol);
    if fills.len() == 0 {
    } else {
        lemma_sweep_trades_qty(c, fills.drop_last(), is_buy, taker_user, taker_id, symbol);
        assert(ts.drop_last() =~= sweep_trades(
            c,
            fills.drop_last(),
            is_buy,
            taker_user,
            taker_id,
            symbol,
        ));
        assert(ts.last().matched_quantity == fills.last().1.qty);
    }
}

impl TickBasedOrderBook {
    /// Quantity is conserved across one match: the filled quantities plus
    /// the resting residual add up to the requested quantity. When no
    /// confirmation comes back, either the order filled completely, or its
    /// own level was already full and the residual was dropped.
    pub proof fn lemma_match_conserves_quantity(&self, r: NewOrderRequest)
        requires
            self.inv(),
            spec_valid_price(self.contract_spec(), r.price),
            self.spec_next_order_id() < u64::MAX,
        ensures
            ({
                let c = self.contract_spec();
                let out = spec_match(
                    c,
                    self.bids(),
                    self.asks(),
                    self.spec_next_order_id(),
                    r,
                );
                let limit = spec_price_index(c, r.price);
                let own2 = if r.order_type is Buy {
                    out.bids
                } else {
                    out.asks
                };
                &&& trades_qty(out.trades) <= r.quantity
                &&& (out.confirmation is Some ==> trades_qty(out.trades)
                    + own2[limit].last().quantity == r.quantity)
                &&& (out.confirmation is None ==> trades_qty(out.trades) == r.quantity || (if r.order_type is Buy {
                    self.bids()
                } else {
                    self.asks()
                })[limit].len() == c.queue_capacity)
            }),
    {
        let c = self.contract_spec();
        let limit = spec_price_index(c, r.price);
        lemma_price_index(c, r.price);
        let is_buy = r.order_type is Buy;
        let s = if is_buy {
            sweep(self.asks(), 0, limit, true, r.quantity)
        } else {
            sweep(self.bids(), self.bids().len() - 1, limit, false, r.quantity)
        };
        if is_buy {
            lemma_sweep_conserves(self.asks(), 0, limit, true, r.quantity);
        } else {
            lemma_sweep_conserves(self.bids(), self.bids().len() - 1, limit, false, r.quantity);
        }
        lemma_sweep_trades_qty(c, s.fills, is_buy, r.user_id, self.next_order_id, r.symbol);
        let out = spec_match(c, self.bids(), self.asks(), self.spec_next_order_id(), r);
        if out.confirmation is Some {
            let own = if is_buy {
                self.bids()
            } else {
                self.asks()
            };
            assert(own.update(limit, own[limit].push(
                OrderNode {
                    user_id: r.user_id,
                    order_id: self.next_order_id,
                    price: r.price,
                    quantity: s.remaining,
                    cancelled: false,
                },
            ))[limit].last().quantity == s.remaining);
        } else {
            if trades_qty(out.trades) != r.quantity {
                // The residual was dropped: its level must already be full.
                let lv = if is_buy {
                    self.bid_levels@[limit]
                } else {
                    self.ask_levels@[limit]
                };
                match lv {
                    Some(q) => {
                        q.lemma_wf_len();
                    },
                    None => {},
                }
            }
        }
    }
}

/// Position of the order carrying `id` in `q`.
pub open spec fn idx_of_id(q: Seq<OrderNode>, id: u64) -> int {
    choose|k: int| 0 <= k < q.len() && q[k].order_id == id
}

/// `q` with the order carrying `id` removed, later orders closing the gap.
pub open spec fn remove_id(q: Seq<OrderNode>, id: u64) -> Seq<OrderNode> {
    q.remove(idx_of_id(q, id))
}

impl TickBasedOrderBook {
    /// Cancels the resting order with `order_id`: removes it from its level
    /// (preserving the order of the others), drops its map entry, and repairs
    /// bitmap and best-price cache; unknown ids are reported as an error with
    /// the book untouched.
    pub fn cancel_order(&mut self, order_id: u64) -> (r: Result<(), String>)
        requires
            old(self).inv(),
        ensures
            final(self).inv(),
            final(self).contract_spec() == old(self).contract_spec(),
            final(self).spec_next_order_id() == old(self).spec_next_order_id(),
            match r {
                Ok(()) => {
                    &&& old(self).location_ids().contains(order_id)
                    &&& final(self).location_ids() =~= old(self).location_ids().remove(order_id)
                    &&& ((exists|i: int|
                        {
                            &&& 0 <= i < old(self).num_levels()
                            &&& #[trigger] order_at(old(self).bids(), i, order_id)
                            &&& final(self).bids() == old(self).bids().update(
                                i,
                                remove_id(old(self).bids()[i], order_id),
                            )
                            &&& final(self).asks() == old(self).asks()
                        }) || (exists|i: int|
                        {
                            &&& 0 <= i < old(self).num_levels()
                            &&& #[trigger] order_at(old(self).asks(), i, order_id)
                            &&& final(self).asks() == old(self).asks().update(
                                i,
                                remove_id(old(self).asks()[i], order_id),
                            )
                            &&& final(self).bids() == old(self).bids()
                        }))
                },
                Err(e) => {
                    &&& !old(self).location_ids().contains(order_id)
                    &&& *final(self) == *old(self)
                    &&& e@ == "order not found"@
                },
            },
    {
        let loc = match self.order_locations.get(&order_id) {
            Some(l) => *l,
            None => {
                return Err("order not found".to_owned());
            },
        };
        let idx = loc.price_idx;
        let ghost pre = *self;
        let ghost num = self.num_levels();
        proof {
            assert(order_at(
                if loc.is_bid {
                    pre.bids()
                } else {
                    pre.asks()
                },
                idx as int,
                order_id,
            ));
        }
        let mut slot: Option<RingBuffer<OrderNode>> = None;
        if loc.is_bid {
            self.bid_levels.set_and_swap(idx, &mut slot);
        } else {
            self.ask_levels.set_and_swap(idx, &mut slot);
        }
        let mut queue = match slot {
            Some(q) => q,
            None => {
                proof {
                    let side = if loc.is_bid {
                        pre.bids()
                    } else {
                        pre.asks()
                    };
                    let k = choose|k: int|
                        0 <= k < side[idx as int].len() && side[idx as int][k].order_id == order_id;
                    assert(side[idx as int].len() > 0);
                    assert(false);
                }
                RingBuffer::with_capacity(1)
            },
        };
        let ghost q0 = queue@;
        let ghost k0 = choose|k: int| 0 <= k < q0.len() && q0[k].order_id == order_id;
        proof {
            let side = if loc.is_bid {
                pre.bids()
            } else {
                pre.asks()
            };
            assert(q0 == side[idx as int]);
            let k = choose|k: int|
                0 <= k < side[idx as int].len() && side[idx as int][k].order_id == order_id;
            assert(0 <= k0 < q0.len() && q0[k0].order_id == order_id);
            queue.lemma_wf_len();
            assert forall|k2: int| 0 <= k2 < q0.len() && k2 != k0 implies q0[k2].order_id
                != order_id by {
                if k2 < k0 {
                    assert(side[idx as int][k2].order_id != side[idx as int][k0].order_id);
                } else {
                    assert(side[idx as int][k0].order_id != side[idx as int][k2].order_id);
                }
            }
        }
        let mut kept: Vec<OrderNode> = Vec::new();
        proof {
            assert(queue@ =~= q0.subrange(0, q0.len() as int));
            assert(kept@ =~= q0.subrange(0, 0));
        }
        while queue.len() > 0
            invariant
                queue.wf(),
                queue.spec_capacity() == pre.contract.queue_capacity,
                pre.contract.queue_capacity >= 1,
                q0.len() <= pre.contract.queue_capacity,
                0 <= k0 < q0.len(),
                q0[k0].order_id == order_id,
                forall|k: int| 0 <= k < q0.len() && k != k0 ==> q0[k].order_id != order_id,
                queue@.len() <= q0.len(),
                queue@ == q0.subrange(q0.len() - queue@.len(), q0.len() as int),
                ({
                    let j = q0.len() - queue@.len();
                    if j <= k0 {
                        kept@ == q0.subrange(0, j)
                    } else {
                        kept@ == q0.subrange(0, j).remove(k0)
                    }
                }),
            decreases queue@.len(),
        {
            let ghost j = q0.len() - queue@.len();
            let ghost qh = queue@;
            match queue.pop() {
                Some(o) => {
                    proof {
                        assert(qh[0] == q0.subrange(j, q0.len() as int)[0]);
                        assert(o == q0[j]);
                        assert(queue@ =~= q0.subrange(j + 1, q0.len() as int));
                    }
                    if o.order_id != order_id {
                        kept.push(o);
                        proof {
                            if j < k0 {
                                assert(kept@ =~= q0.subrange(0, j + 1));
                            } else {
                                assert(j > k0);
                                assert(kept@ =~= q0.subrange(0, j + 1).remove(k0));
                            }
                        }
                    } else {
                        proof {
                            assert(j == k0);
                            assert(kept@ =~= q0.subrange(0, j + 1).remove(k0));
                        }
                    }
                },
                None => {
                    proof {
                        assert(false);
                    }
                },
            }
        }
        let ghost removed = q0.remove(k0);
        proof {
            assert(kept@ =~= removed);
        }
        let n = kept.len();
        let mut i: usize = 0;
        while i < n
            invariant
                queue.wf(),
                queue.spec_capacity() == pre.contract.queue_capacity,
                n == kept@.len(),
                n < pre.contract.queue_capacity + 1,
                kept@ == removed,
                i <= n,
                queue@ == removed.subrange(0, i as int),
            decreases n - i,
        {
            let node = kept[i];
            let res = queue.push(node);
            proof {
                assert(res is Ok);
                assert(queue@ =~= removed.subrange(0, i + 1));
            }
            i = i + 1;
        }
        proof {
            assert(queue@ =~= removed);
        }
        let now_empty = queue.is_empty();
        if loc.is_bid {
            if now_empty {
                self.bid_bitmap.set(idx, false);
            } else {
                self.bid_levels.set(idx, Some(queue));
            }
        } else {
            if now_empty {
                self.ask_bitmap.set(idx, false);
            } else {
                self.ask_levels.set(idx, Some(queue));
            }
        }
        let removed_entry = self.order_locations.remove(&order_id);
        proof {
            if loc.is_bid {
                assert(self.bids() =~~= pre.bids().update(idx as int, removed));
                assert(self.asks() =~~= pre.asks());
            } else {
                assert(self.asks() =~~= pre.asks().update(idx as int, removed));
                assert(self.bids() =~~= pre.bids());
            }
            lemma_remove_order(
                pre.bids(),
                pre.asks(),
                pre.order_locations@,
                num,
                pre.contract,
                pre.next_order_id,
                loc.is_bid,
                idx as int,
                k0,
                self.order_locations@,
            );
            assert(removed =~= remove_id(q0, order_id)) by {
                let kk = idx_of_id(q0, order_id);
                assert(0 <= kk < q0.len() && q0[kk].order_id == order_id);
                assert(kk == k0);
            }
        }
        // Repair the best-price cache if the emptied level was the best.
        if now_empty {
            if loc.is_bid {
                match self.best_bid_idx {
                    Some(b) => {
                        if b == idx {
                            let last = self.bid_bitmap.find_last_one();
                            self.best_bid_idx = last;
                        }
                    },
                    None => {},
                }
            } else {
                match self.best_ask_idx {
                    Some(a) => {
                        if a == idx {
                            let first = self.ask_bitmap.find_first_one();
                            self.best_ask_idx = first;
                        }
                    },
                    None => {},
                }
            }
        }
        proof {
            let cap = pre.contract.queue_capacity as int;
            if loc.is_bid {
                assert(Self::side_wf(self.bid_levels@, self.bid_bitmap, cap, num)) by {
                    assert forall|i: int|
                        0 <= i < num implies match #[trigger] self.bid_levels@[i] {
                        Some(q) => q.wf() && q@.len() > 0 && q.spec_capacity() == cap,
                        None => true,
                    } by {
                        if i != idx {
                            assert(self.bid_levels@[i] == pre.bid_levels@[i]);
                        }
                    }
                    assert forall|i: int|
                        0 <= i < num implies (self.bid_bitmap.bit(i) <==> (
                    #[trigger] self.bid_levels@[i]) is Some) by {
                        if i != idx {
                            assert(self.bid_levels@[i] == pre.bid_levels@[i]);
                            assert(pre.bid_bitmap.bit(i) <==> pre.bid_levels@[i] is Some);
                        }
                    }
                }
                // The removed level sat at or below the old best bid.
                match pre.best_bid_idx {
                    Some(ob) => {
                        if idx as int > ob as int {
                            assert(pre.bids()[idx as int].len() == 0);
                            assert(false);
                        }
                    },
                    None => {
                        assert(pre.bids()[idx as int].len() == 0);
                        assert(false);
                    },
                }
                assert(Self::side_cache_ok(self.bids(), self.best_bid_idx, true)) by {
                    match self.best_bid_idx {
                        Some(b) => {
                            assert(self.bids()[b as int].len() > 0) by {
                                if !(now_empty && pre.best_bid_idx == Some(idx)) {
                                    assert(self.bids()[b as int] == (if b == idx {
                                        removed
                                    } else {
                                        pre.bids()[b as int]
                                    }));
                                }
                            }
                            assert forall|j: int| b < j < num implies self.bids()[j].len()
                                == 0 by {
                                if now_empty && pre.best_bid_idx == Some(idx) {
                                    assert(!self.bid_bitmap.bit(j));
                                } else {
                                    assert(j != idx);
                                    assert(self.bids()[j] == pre.bids()[j]);
                                }
                            }
                        },
                        None => {
                            assert forall|j: int| 0 <= j < num implies self.bids()[j].len()
                                == 0 by {
                                assert(!self.bid_bitmap.bit(j));
                            }
                        },
                    }
                }
                // Clearing bid levels can only lower the best bid.
                assert(self.uncrossed()) by {
                    match (self.best_bid_idx, self.best_ask_idx) {
                        (Some(b), Some(a)) => {
                            if now_empty && pre.best_bid_idx == Some(idx) {
                                assert(self.bids()[b as int].len() > 0);
                                if b as int >= idx as int {
                                    assert(self.bids()[b as int] == (if b == idx {
                                        Seq::<OrderNode>::empty()
                                    } else {
                                        pre.bids()[b as int]
                                    }));
                                    assert(pre.bids()[b as int].len() == 0);
                                }
                            }
                        },
                        _ => {},
                    }
                }
            } else {
                assert(Self::side_wf(self.ask_levels@, self.ask_bitmap, cap, num)) by {
                    assert forall|i: int|
                        0 <= i < num implies match #[trigger] self.ask_levels@[i] {
                        Some(q) => q.wf() && q@.len() > 0 && q.spec_capacity() == cap,
                        None => true,
                    } by {
                        if i != idx {
                            assert(self.ask_levels@[i] == pre.ask_levels@[i]);
                        }
                    }
                    assert forall|i: int|
                        0 <= i < num implies (self.ask_bitmap.bit(i) <==> (
                    #[trigger] self.ask_levels@[i]) is Some) by {
                        if i != idx {
                            assert(self.ask_levels@[i] == pre.ask_levels@[i]);
                            assert(pre.ask_bitmap.bit(i) <==> pre.ask_levels@[i] is Some);
                        }
                    }
                }
                // The removed level sat at or above the old best ask.
                match pre.best_ask_idx {
                    Some(oa) => {
                        if (idx as int) < oa as int {
                            assert(pre.asks()[idx as int].len() == 0);
                            assert(false);
                        }
                    },
                    None => {
                        assert(pre.asks()[idx as int].len() == 0);
                        assert(false);
                    },
                }
                assert(Self::side_cache_ok(self.asks(), self.best_ask_idx, false)) by {
                    match self.best_ask_idx {
                        Some(a) => {
                            assert(self.asks()[a as int].len() > 0) by {
                                if !(now_empty && pre.best_ask_idx == Some(idx)) {
                                    assert(self.asks()[a as int] == (if a == idx {
                                        removed
                                    } else {
                                        pre.asks()[a as int]
                                    }));
                                }
                            }
                            assert forall|j: int| 0 <= j < a as int implies self.asks()[j].len()
                                == 0 by {
                                if now_empty && pre.best_ask_idx == Some(idx) {
                                    assert(!self.ask_bitmap.bit(j));
                                } else {
                                    assert(j != idx);
                                    assert(self.asks()[j] == pre.asks()[j]);
                                }
                            }
                        },
                        None => {
                            assert forall|j: int| 0 <= j < num implies self.asks()[j].len()
                                == 0 by {
                                assert(!self.ask_bitmap.bit(j));
                            }
                        },
                    }
                }
                // Clearing ask levels can only raise the best ask.
                assert(self.uncrossed()) by {
                    match (self.best_bid_idx, self.best_ask_idx) {
                        (Some(b), Some(a)) => {
                            if now_empty && pre.best_ask_idx == Some(idx) {
                                assert(self.asks()[a as int].len() > 0);
                                if a as int <= idx as int {
                                    assert(self.asks()[a as int] == (if a == idx {
                                        Seq::<OrderNode>::empty()
                                    } else {
                                        pre.asks()[a as int]
                                    }));
                                    assert(pre.asks()[a as int].len() == 0);
                                }
                            }
                        },
                        _ => {},
                    }
                }
            }
            // The result clauses.
            assert(self.location_ids() =~= pre.location_ids().remove(order_id));
            if loc.is_bid {
                assert(order_at(pre.bids(), idx as int, order_id));
                assert(self.bids() =~= pre.bids().update(
                    idx as int,
                    remove_id(pre.bids()[idx as int], order_id),
                ));
            } else {
                assert(order_at(pre.asks(), idx as int, order_id));
                assert(self.asks() =~= pre.asks().update(
                    idx as int,
                    remove_id(pre.asks()[idx as int], order_id),
                ));
            }
        }
        Ok(())
    }
}

/// Removing one order from the middle of a level keeps the id map exact,
/// level ids distinct, and the orders well-formed.
proof fn lemma_remove_order(
    bids: Seq<Seq<OrderNode>>,
    asks: Seq<Seq<OrderNode>>,
    m: Map<u64, OrderLocation>,
    num: int,
    c: ContractSpec,
    next_id: u64,
    on_bid: bool,
    idx: int,
    k0: int,
    m2: Map<u64, OrderLocation>,
)
    requires
        locs_ok(bids, asks, m, num),
        side_ids_unique(bids),
        side_ids_unique(asks),
        side_orders_wf(c, bids, next_id),
        side_orders_wf(c, asks, next_id),
        bids.len() == num,
        asks.len() == num,
        0 <= idx < num,
        ({
            let q0 = if on_bid {
                bids[idx]
            } else {
                asks[idx]
            };
            &&& 0 <= k0 < q0.len()
            &&& m2 == m.remove(q0[k0].order_id)
        }),
    ensures
        ({
            let q0 = if on_bid {
                bids[idx]
            } else {
                asks[idx]
            };
            let q2 = q0.remove(k0);
            let b2 = if on_bid {
                bids.update(idx, q2)
            } else {
                bids
            };
            let a2 = if on_bid {
                asks
            } else {
                asks.update(idx, q2)
            };
            &&& locs_ok(b2, a2, m2, num)
            &&& side_ids_unique(b2)
            &&& side_ids_unique(a2)
            &&& side_orders_wf(c, b2, next_id)
            &&& side_orders_wf(c, a2, next_id)
        }),
{
    let q0 = if on_bid {
        bids[idx]
    } else {
        asks[idx]
    };
    let id0 = q0[k0].order_id;
    let q2 = q0.remove(k0);
    let b2 = if on_bid {
        bids.update(idx, q2)
    } else {
        bids
    };
    let a2 = if on_bid {
        asks
    } else {
        asks.update(idx, q2)
    };
    let s2 = if on_bid {
        b2
    } else {
        a2
    };
    assert forall|k: int| 0 <= k < q2.len() implies #[trigger] q2[k] == (if k < k0 {
        q0[k]
    } else {
        q0[k + 1]
    }) by {}
    assert forall|i: int, k1: int, k2: int|
        0 <= i < s2.len() && 0 <= k1 < k2 < s2[i].len() implies (#[trigger] s2[i][k1]).order_id != (
    #[trigger] s2[i][k2]).order_id by {
        if i == idx {
            let o1 = if k1 < k0 {
                k1
            } else {
                k1 + 1
            };
            let o2 = if k2 < k0 {
                k2
            } else {
                k2 + 1
            };
            assert(s2[i][k1] == q0[o1] && s2[i][k2] == q0[o2]);
        }
    }
    assert forall|i: int, k: int|
        0 <= i < s2.len() && 0 <= k < s2[i].len() implies {
            let o = #[trigger] s2[i][k];
            &&& o.price == spec_index_to_price(c, i)
            &&& o.quantity > 0
            &&& !o.cancelled
            &&& o.order_id < next_id
        } by {
        if i == idx {
            let ok = if k < k0 {
                k
            } else {
                k + 1
            };
            assert(s2[i][k] == q0[ok]);
        }
    }
    assert forall|id: u64| #[trigger] m2.contains_key(id) implies {
        let loc = m2[id];
        &&& (loc.price_idx as int) < num
        &&& order_at(
            if loc.is_bid {
                b2
            } else {
                a2
            },
            loc.price_idx as int,
            id,
        )
    } by {
        assert(id != id0);
        assert(m.contains_key(id));
        let loc = m[id];
        let old_side = if loc.is_bid {
            bids
        } else {
            asks
        };
        let new_side = if loc.is_bid {
            b2
        } else {
            a2
        };
        let k = choose|k: int|
            0 <= k < old_side[loc.price_idx as int].len() && old_side[loc.price_idx as int][k].order_id
                == id;
        if loc.is_bid == on_bid && loc.price_idx == idx {
            assert(k != k0);
            if k < k0 {
                assert(order_at(new_side, idx, id)) by {
                    assert(0 <= k < q2.len() && q2[k].order_id == id);
                }
            } else {
                assert(order_at(new_side, idx, id)) by {
                    assert(0 <= k - 1 < q2.len() && q2[k - 1].order_id == id);
                }
            }
        } else {
            assert(order_at(new_side, loc.price_idx as int, id)) by {
                assert(0 <= k < new_side[loc.price_idx as int].len()
                    && new_side[loc.price_idx as int][k].order_id == id);
            }
        }
    }
    assert forall|i: int, k: int|
        0 <= i < b2.len() && 0 <= k < b2[i].len() implies {
            let o = #[trigger] b2[i][k];
            &&& m2.contains_key(o.order_id)
            &&& m2[o.order_id].price_idx == i
            &&& m2[o.order_id].is_bid
        } by {
        let o = b2[i][k];
        if on_bid && i == idx {
            let ok = if k < k0 {
                k
            } else {
                k + 1
            };
            assert(o == q0[ok]);
            assert(o.order_id != id0);
        } else {
            assert(o == bids[i][k]);
            if o.order_id == id0 {
                assert(m[id0].price_idx == idx && m[id0].is_bid == on_bid);
            }
        }
    }
    assert forall|i: int, k: int|
        0 <= i < a2.len() && 0 <= k < a2[i].len() implies {
            let o = #[trigger] a2[i][k];
            &&& m2.contains_key(o.order_id)
            &&& m2[o.order_id].price_idx == i
            &&& !m2[o.order_id].is_bid
        } by {
        let o = a2[i][k];
        if !on_bid && i == idx {
            let ok = if k < k0 {
                k
            } else {
                k + 1
            };
            assert(o == q0[ok]);
            assert(o.order_id != id0);
        } else {
            assert(o == asks[i][k]);
            if o.order_id == id0 {
                assert(m[id0].price_idx == idx && m[id0].is_bid == on_bid);
            }
        }
    }
}

/// Appending one fresh order at the back of a level keeps the id map exact,
/// level ids distinct, and the orders well-formed.
proof fn lemma_rest_order(
    bids: Seq<Seq<OrderNode>>,
    asks: Seq<Seq<OrderNode>>,
    m: Map<u64, OrderLocation>,
    num: int,
    c: ContractSpec,
    next_id: u64,
    on_bid: bool,
    idx: int,
    node: OrderNode,
    m2: Map<u64, OrderLocation>,
)
    requires
        locs_ok(bids, asks, m, num),
        side_ids_unique(bids),
        side_ids_unique(asks),
        side_orders_wf(c, bids, next_id),
        side_orders_wf(c, asks, next_id),
        bids.len() == num,
        asks.len() == num,
        0 <= idx < num,
        !m.dom().contains(node.order_id),
        node.order_id < next_id,
        node.quantity > 0,
        !node.cancelled,
        node.price == spec_index_to_price(c, idx),
        m2 == m.insert(node.order_id, OrderLocation { price_idx: idx as usize, is_bid: on_bid }),
        idx <= usize::MAX,
    ensures
        ({
            let b2 = if on_bid {
                bids.update(idx, bids[idx].push(node))
            } else {
                bids
            };
            let a2 = if on_bid {
                asks
            } else {
                asks.update(idx, asks[idx].push(node))
            };
            &&& locs_ok(b2, a2, m2, num)
            &&& side_ids_unique(b2)
            &&& side_ids_unique(a2)
            &&& side_orders_wf(c, b2, next_id)
            &&& side_orders_wf(c, a2, next_id)
        }),
{
    let q0 = if on_bid {
        bids[idx]
    } else {
        asks[idx]
    };
    let q2 = q0.push(node);
    let b2 = if on_bid {
        bids.update(idx, q2)
    } else {
        bids
    };
    let a2 = if on_bid {
        asks
    } else {
        asks.update(idx, q2)
    };
    let s2 = if on_bid {
        b2
    } else {
        a2
    };
    assert forall|i: int, k1: int, k2: int|
        0 <= i < s2.len() && 0 <= k1 < k2 < s2[i].len() implies (#[trigger] s2[i][k1]).order_id != (
    #[trigger] s2[i][k2]).order_id by {
        if i == idx && k2 == q0.len() {
            assert(s2[i][k1] == q0[k1]);
            assert(m.contains_key(q0[k1].order_id));
        }
    }
    assert forall|id: u64| #[trigger] m2.contains_key(id) implies {
        let loc = m2[id];
        &&& (loc.price_idx as int) < num
        &&& order_at(
            if loc.is_bid {
                b2
            } else {
                a2
            },
            loc.price_idx as int,
            id,
        )
    } by {
        if id == node.order_id {
            assert(s2[idx][q0.len() as int].order_id == id);
            assert(order_at(s2, idx, id)) by {
                assert(0 <= q0.len() < s2[idx].len() && s2[idx][q0.len() as int].order_id == id);
            }
        } else {
            assert(m.contains_key(id));
            let loc = m[id];
            let old_side = if loc.is_bid {
                bids
            } else {
                asks
            };
            let new_side = if loc.is_bid {
                b2
            } else {
                a2
            };
            let k = choose|k: int|
                0 <= k < old_side[loc.price_idx as int].len() && old_side[loc.price_idx as int][k].order_id
                    == id;
            assert(order_at(new_side, loc.price_idx as int, id)) by {
                assert(0 <= k < new_side[loc.price_idx as int].len()
                    && new_side[loc.price_idx as int][k].order_id == id);
            }
        }
    }
    assert forall|i: int, k: int|
        0 <= i < b2.len() && 0 <= k < b2[i].len() implies {
            let o = #[trigger] b2[i][k];
            &&& m2.contains_key(o.order_id)
            &&& m2[o.order_id].price_idx == i
            &&& m2[o.order_id].is_bid
        } by {
        let o = b2[i][k];
        if on_bid && i == idx && k == q0.len() {
        } else {
            assert(o == bids[i][k]);
            assert(o.order_id != node.order_id);
        }
    }
    assert forall|i: int, k: int|
        0 <= i < a2.len() && 0 <= k < a2[i].len() implies {
            let o = #[trigger] a2[i][k];
            &&& m2.contains_key(o.order_id)
            &&& m2[o.order_id].price_idx == i
            &&& !m2[o.order_id].is_bid
        } by {
        let o = a2[i][k];
        if !on_bid && i == idx && k == q0.len() {
        } else {
            assert(o == asks[i][k]);
            assert(o.order_id != node.order_id);
        }
    }
    assert forall|i: int, k: int|
        0 <= i < s2.len() && 0 <= k < s2[i].len() implies {
            let o = #[trigger] s2[i][k];
            &&& o.price == spec_index_to_price(c, i)
            &&& o.quantity > 0
            &&& !o.cancelled
            &&& o.order_id < next_id
        } by {
        if i == idx && k == q0.len() {
        } else if i == idx {
            assert(s2[i][k] == q0[k]);
        }
    }
}

} // verus!
