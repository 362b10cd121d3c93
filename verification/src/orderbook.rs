//! The order book: dual-sided dense price-level index, id index, matcher,
//! cancel path and best-price cache.
//!
//! A buy at price `p` rests at offset `base - p` (admissible only strictly
//! below the base price), a sell at offset `p - base` (admissible at or
//! above it), so the book can never cross. The matcher walks the opposite
//! side's offsets upward - best price first - and consumes each level's
//! FIFO from the front; [`fill_fifo`] and [`sweep_levels`] state that
//! procedure on the abstract side, and `add_order`'s contract pins the
//! returned executions and the remaining book to it exactly.

use vstd::prelude::*;

use crate::invariants::{
    lemma_idm_extend, lemma_restore_after_cancel, lemma_restore_after_fill,
    lemma_restore_after_rest, lemma_side_positive_of_ok,
};
use crate::memory::OrderPool;
use crate::model::{
    at_offset, count_some_from, fifo_positive, fill_fifo, first_occupied, lemma_at_offset_sum,
    lemma_fill_fifo_basic, lemma_side_orders_update, lemma_sum_qty_add, lemma_sum_qty_ge_elem,
    lemma_sum_qty_nonneg, lemma_sum_qty_remove, lemma_sum_qty_singleton, lemma_sweep_basic,
    side_orders, side_positive, sum_qty, sweep_levels, Entry, Fill,
};
use crate::types::{Execution, Order, OrderType, PriceLevel, Side};

verus! {

/// Width of each side's dense price window, in ticks.
pub const PRICE_LEVELS: usize = 1024;

/// Initial FIFO capacity hint for a newly created price level.
pub const DEFAULT_ORDERS_PER_LEVEL: usize = 1024;

/// Why an admit or cancel was rejected. On a rejection the book still
/// satisfies all of its invariants.
#[derive(Debug, Clone, Copy, PartialEq, Eq, Structural)]
pub enum BookError {
    /// Admit with an id that is still live in the book.
    DuplicateId,
    /// Limit order price outside the side's admissible window.
    PriceOutOfRange,
    /// The order pool had no free slot when the order tried to rest.
    PoolFull,
    /// Cancel of an id that is not resting.
    OrderNotFound,
}

/// The price implied by a tick offset: `base + off` on the sell side,
/// `base - off` on the buy side.
pub open spec fn level_price(base: u64, ask: bool, off: int) -> int {
    if ask {
        base + off
    } else {
        base - off
    }
}

/// The FIFO of one price level, abstracted to (id, quantity) entries.
pub open spec fn level_entries(fifo: Seq<usize>, slots: Seq<Option<Order>>) -> Seq<Entry> {
    fifo.map(
        |k: int, h: usize|
            Entry {
                id: slots[h as int]->Some_0.order_id,
                qty: slots[h as int]->Some_0.quantity as int,
            },
    )
}

/// One side of the book, abstracted to optional FIFOs indexed by offset.
pub open spec fn side_entries(levels: Seq<Option<PriceLevel>>, slots: Seq<Option<Order>>) -> Seq<
    Option<Seq<Entry>>,
> {
    Seq::new(
        levels.len(),
        |i: int|
            match levels[i] {
                Some(l) => Some(level_entries(l.order_indices@, slots)),
                None => None,
            },
    )
}

/// Conditions on one handle resting in the level at `price` on `side`: the
/// slot is live, positive, carries the level's price and side, and the id
/// index maps its id back to this handle.
pub open spec fn handle_ok(
    h: usize,
    slots: Seq<Option<Order>>,
    idm: Seq<Option<usize>>,
    price: u64,
    side: Side,
) -> bool {
    &&& (h as int) < slots.len()
    &&& slots[h as int] is Some
    &&& slots[h as int]->Some_0.quantity > 0
    &&& slots[h as int]->Some_0.price == price
    &&& slots[h as int]->Some_0.side == side
    &&& slots[h as int]->Some_0.kind == OrderType::Limit
    &&& (slots[h as int]->Some_0.order_id as int) < idm.len()
    &&& idm[slots[h as int]->Some_0.order_id as int] == Some(h)
}

/// Conditions on one occupied price level: non-empty FIFO of distinct
/// handles, each fine by [`handle_ok`], and the cached aggregate quantity
/// equal to the sum over the FIFO.
pub open spec fn level_fields_ok(
    l: PriceLevel,
    slots: Seq<Option<Order>>,
    idm: Seq<Option<usize>>,
    price: u64,
    side: Side,
) -> bool {
    &&& l.price == price
    &&& forall|k: int|
        0 <= k < l.order_indices@.len() ==> handle_ok(
            #[trigger] l.order_indices@[k],
            slots,
            idm,
            price,
            side,
        )
    &&& forall|k1: int, k2: int|
        0 <= k1 < k2 < l.order_indices@.len() ==> l.order_indices@[k1] != l.order_indices@[k2]
    &&& l.total_quantity as int == sum_qty(level_entries(l.order_indices@, slots))
}

pub open spec fn level_ok(
    l: PriceLevel,
    slots: Seq<Option<Order>>,
    idm: Seq<Option<usize>>,
    price: u64,
    side: Side,
) -> bool {
    &&& level_fields_ok(l, slots, idm, price, side)
    &&& l.order_indices@.len() > 0
}

/// Two orders that agree on everything but their live quantity.
pub open spec fn same_order_but_qty(a: Order, b: Order) -> bool {
    &&& a.order_id == b.order_id
    &&& a.price == b.price
    &&& a.side == b.side
    &&& a.kind == b.kind
    &&& a.timestamp == b.timestamp
}

/// Conditions on one whole side. The buy side never occupies offset 0,
/// since a buy is admissible only strictly below the base price.
pub open spec fn side_ok(
    levels: Seq<Option<PriceLevel>>,
    slots: Seq<Option<Order>>,
    idm: Seq<Option<usize>>,
    base: u64,
    ask: bool,
) -> bool {
    &&& levels.len() == PRICE_LEVELS
    &&& forall|i: int|
        0 <= i < levels.len() && (#[trigger] levels[i]) is Some ==> level_ok(
            levels[i]->Some_0,
            slots,
            idm,
            level_price(base, ask, i) as u64,
            if ask {
                Side::Sell
            } else {
                Side::Buy
            },
        )
    &&& !ask ==> levels[0] is None
}

/// The cached best offset equals the smallest occupied offset, or is absent
/// when the side is empty.
pub open spec fn best_ok(best: Option<usize>, levels: Seq<Option<PriceLevel>>) -> bool {
    match best {
        None => forall|i: int| 0 <= i < levels.len() ==> (#[trigger] levels[i]) is None,
        Some(b) => {
            &&& (b as int) < levels.len()
            &&& levels[b as int] is Some
            &&& forall|i: int| 0 <= i < b ==> (#[trigger] levels[i]) is None
        },
    }
}

/// A single-symbol limit order book over a dense price window centred on a
/// base price, with an order pool, an id index and best-price caches.
pub struct OrderBook {
    symbol: String,
    order_pool: OrderPool,
    order_id_to_index: Vec<Option<usize>>,
    max_order_id: u64,
    buy_levels: Vec<Option<PriceLevel>>,
    sell_levels: Vec<Option<PriceLevel>>,
    base_price: u64,
    tick_size: u64,
    best_bid_idx: Option<usize>,
    best_ask_idx: Option<usize>,
    order_count: usize,
    total_orders_processed: u64,
    total_quantity_matched: u64,
}

/// A snapshot of the book's aggregate state.
#[derive(Debug, Clone)]
pub struct OrderBookSummary {
    pub symbol: String,
    pub best_bid: Option<u64>,
    pub best_ask: Option<u64>,
    pub buy_levels: usize,
    pub sell_levels: usize,
    pub order_count: usize,
    pub total_orders_processed: u64,
    pub total_quantity_matched: u64,
}

impl OrderBook {
    /// The buy side as a sequence of optional FIFOs, indexed by tick offset
    /// below the base price.
    pub closed spec fn bids(&self) -> Seq<Option<Seq<Entry>>> {
        side_entries(self.buy_levels@, self.order_pool.slots())
    }

    /// The sell side as a sequence of optional FIFOs, indexed by tick offset
    /// at or above the base price.
    pub closed spec fn asks(&self) -> Seq<Option<Seq<Entry>>> {
        side_entries(self.sell_levels@, self.order_pool.slots())
    }

    /// Whether `id` currently names a resting order.
    pub closed spec fn live_id(&self, id: u64) -> bool {
        (id as int) < self.order_id_to_index@.len() && self.order_id_to_index@[id as int] is Some
    }

    pub closed spec fn spec_base_price(&self) -> u64 {
        self.base_price
    }

    pub closed spec fn spec_matched(&self) -> u64 {
        self.total_quantity_matched
    }

    pub closed spec fn spec_processed(&self) -> u64 {
        self.total_orders_processed
    }

    pub closed spec fn spec_order_count(&self) -> usize {
        self.order_count
    }

    /// The cached best bid offset (the book's internal best-price cache).
    pub closed spec fn cached_bid_off(&self) -> Option<usize> {
        self.best_bid_idx
    }

    pub closed spec fn cached_ask_off(&self) -> Option<usize> {
        self.best_ask_idx
    }

    /// The stored aggregate quantity of the occupied bid level at `off`.
    pub closed spec fn bid_level_total(&self, off: int) -> u64 {
        self.buy_levels@[off]->Some_0.total_quantity
    }

    pub closed spec fn ask_level_total(&self, off: int) -> u64 {
        self.sell_levels@[off]->Some_0.total_quantity
    }

    /// The invariants that hold between the book's coupled structures at
    /// every step, even while a sweep has the best-price caches stale.
    pub closed spec fn wf_core(&self) -> bool {
        &&& self.tick_size == 1
        &&& self.base_price >= PRICE_LEVELS as u64
        &&& self.base_price <= u64::MAX - PRICE_LEVELS as u64
        &&& self.order_pool.wf()
        &&& side_ok(
            self.buy_levels@,
            self.order_pool.slots(),
            self.order_id_to_index@,
            self.base_price,
            false,
        )
        &&& side_ok(
            self.sell_levels@,
            self.order_pool.slots(),
            self.order_id_to_index@,
            self.base_price,
            true,
        )
        &&& forall|id: int|
            0 <= id < self.order_id_to_index@.len() && (#[trigger] self.order_id_to_index@[id])
                is Some ==> id_entry_ok(
                id,
                self.order_id_to_index@[id]->Some_0,
                self.order_pool.slots(),
                self.buy_levels@,
                self.sell_levels@,
                self.base_price,
            )
        &&& forall|h: int|
            0 <= h < self.order_pool.slots().len() && (#[trigger] self.order_pool.slots()[h])
                is Some ==> {
                let id = self.order_pool.slots()[h]->Some_0.order_id;
                &&& (id as int) < self.order_id_to_index@.len()
                &&& self.order_id_to_index@[id as int] == Some(h as usize)
            }
        &&& self.order_pool.free_list().len() <= self.order_pool.slots().len()
    }

    /// All invariants of the book; every public operation preserves it.
    pub closed spec fn wf(&self) -> bool {
        &&& self.wf_core()
        &&& best_ok(self.best_bid_idx, self.buy_levels@)
        &&& best_ok(self.best_ask_idx, self.sell_levels@)
        &&& self.order_count as int == self.order_pool.slots().len()
            - self.order_pool.free_list().len()
    }
}

impl OrderBook {
    /// The symbol this book trades.
    pub closed spec fn spec_symbol(&self) -> Seq<char> {
        self.symbol@
    }

    /// Free slots left in the order pool.
    pub closed spec fn spec_available(&self) -> int {
        self.order_pool.free_list().len() as int
    }

    /// Total capacity of the order pool.
    pub closed spec fn spec_capacity(&self) -> int {
        self.order_pool.slots().len() as int
    }

    /// The best (highest) resting bid price: the price of the smallest
    /// occupied buy offset.
    pub open spec fn spec_best_bid(&self) -> Option<u64> {
        match first_occupied(self.bids(), 0) {
            Some(b) => Some((self.spec_base_price() - b) as u64),
            None => None,
        }
    }

    /// The best (lowest) resting ask price: the price of the smallest
    /// occupied sell offset.
    pub open spec fn spec_best_ask(&self) -> Option<u64> {
        match first_occupied(self.asks(), 0) {
            Some(a) => Some((self.spec_base_price() + a) as u64),
            None => None,
        }
    }

    /// Create an empty book for `symbol` holding at most `capacity`
    /// concurrent live orders.
    pub fn new(symbol: &str, capacity: usize) -> (r: Self)
        ensures
            r.wf(),
            r.spec_symbol() == symbol@,
            r.spec_base_price() == 10000,
            r.spec_capacity() == capacity,
            r.spec_available() == capacity,
            r.spec_order_count() == 0,
            r.spec_matched() == 0,
            r.spec_processed() == 0,
            forall|i: int| 0 <= i < r.bids().len() ==> r.bids()[i] is None,
            forall|i: int| 0 <= i < r.asks().len() ==> r.asks()[i] is None,
            forall|id: u64| !r.live_id(id),
            r.bids().len() == PRICE_LEVELS,
            r.asks().len() == PRICE_LEVELS,
    {
        let mut buy_levels: Vec<Option<PriceLevel>> = Vec::with_capacity(PRICE_LEVELS);
        let mut sell_levels: Vec<Option<PriceLevel>> = Vec::with_capacity(PRICE_LEVELS);
        for _i in 0..PRICE_LEVELS
            invariant
                buy_levels@.len() == _i,
                sell_levels@.len() == _i,
                forall|j: int| 0 <= j < _i ==> buy_levels@[j] is None,
                forall|j: int| 0 <= j < _i ==> sell_levels@[j] is None,
        {
            buy_levels.push(None);
            sell_levels.push(None);
        }

        let mut order_id_to_index: Vec<Option<usize>> = Vec::with_capacity(capacity);
        for _i in 0..capacity
            invariant
                order_id_to_index@.len() == _i,
                forall|j: int| 0 <= j < _i ==> order_id_to_index@[j] is None,
        {
            order_id_to_index.push(None);
        }

        OrderBook {
            symbol: symbol.to_owned(),
            order_pool: OrderPool::new(capacity),
            order_id_to_index,
            max_order_id: 0,
            buy_levels,
            sell_levels,
            base_price: 10000,
            tick_size: 1,
            best_bid_idx: None,
            best_ask_idx: None,
            order_count: 0,
            total_orders_processed: 0,
            total_quantity_matched: 0,
        }
    }

    /// Offset of a buy price below the base price; `None` outside the
    /// admissible buy window `price < base`.
    fn buy_price_to_idx(&self, price: u64) -> (r: Option<usize>)
        requires
            self.wf_core(),
        ensures
            r is Some <==> price < self.spec_base_price() && self.spec_base_price() - price
                < PRICE_LEVELS as int,
            r is Some ==> r->Some_0 as int == self.spec_base_price() - price && 0 < r->Some_0
                < PRICE_LEVELS,
    {
        if price >= self.base_price {
            return None;
        }
        let diff = (self.base_price - price) / self.tick_size;
        if diff < PRICE_LEVELS as u64 {
            Some(diff as usize)
        } else {
            None
        }
    }

    /// Offset of a sell price at or above the base price; `None` outside the
    /// admissible sell window `price >= base`.
    fn sell_price_to_idx(&self, price: u64) -> (r: Option<usize>)
        requires
            self.wf_core(),
        ensures
            r is Some <==> price >= self.spec_base_price() && price - self.spec_base_price()
                < PRICE_LEVELS as int,
            r is Some ==> r->Some_0 as int == price - self.spec_base_price() && r->Some_0
                < PRICE_LEVELS,
    {
        if price < self.base_price {
            return None;
        }
        let diff = (price - self.base_price) / self.tick_size;
        if diff < PRICE_LEVELS as u64 {
            Some(diff as usize)
        } else {
            None
        }
    }

    /// The price a buy offset stands for.
    fn buy_idx_to_price(&self, idx: usize) -> (r: u64)
        requires
            self.wf_core(),
            idx < PRICE_LEVELS,
        ensures
            r as int == self.spec_base_price() - idx,
    {
        self.base_price - (idx as u64) * self.tick_size
    }

    /// The price a sell offset stands for.
    fn sell_idx_to_price(&self, idx: usize) -> (r: u64)
        requires
            self.wf_core(),
            idx < PRICE_LEVELS,
        ensures
            r as int == self.spec_base_price() + idx,
    {
        self.base_price + (idx as u64) * self.tick_size
    }

    /// Rescan the buy side for its smallest occupied offset.
    fn find_best_bid_idx(&self) -> (r: Option<usize>)
        ensures
            best_ok(r, self.buy_levels@),
    {
        first_occupied_level(&self.buy_levels)
    }

    /// Rescan the sell side for its smallest occupied offset.
    fn find_best_ask_idx(&self) -> (r: Option<usize>)
        ensures
            best_ok(r, self.sell_levels@),
    {
        first_occupied_level(&self.sell_levels)
    }

    pub fn symbol(&self) -> (r: &str)
        ensures
            r@ == self.spec_symbol(),
    {
        self.symbol.as_str()
    }

    /// The best bid price served from the cache, which under `wf` equals the
    /// highest occupied buy price.
    pub fn best_bid(&self) -> (r: Option<u64>)
        requires
            self.wf(),
        ensures
            r == self.spec_best_bid(),
    {
        proof {
            lemma_first_occupied_entries(self.buy_levels@, self.order_pool.slots(), 0);
        }
        match self.best_bid_idx {
            Some(idx) => Some(self.buy_idx_to_price(idx)),
            None => None,
        }
    }

    /// The best ask price served from the cache, which under `wf` equals the
    /// lowest occupied sell price.
    pub fn best_ask(&self) -> (r: Option<u64>)
        requires
            self.wf(),
        ensures
            r == self.spec_best_ask(),
    {
        proof {
            lemma_first_occupied_entries(self.sell_levels@, self.order_pool.slots(), 0);
        }
        match self.best_ask_idx {
            Some(idx) => Some(self.sell_idx_to_price(idx)),
            None => None,
        }
    }

    /// Best ask minus best bid, when both sides are occupied. Under `wf` the
    /// book is never crossed, so the difference is strictly positive.
    pub fn spread(&self) -> (r: Option<u64>)
        requires
            self.wf(),
        ensures
            r == match (self.spec_best_bid(), self.spec_best_ask()) {
                (Some(bid), Some(ask)) => Some((ask - bid) as u64),
                _ => None::<u64>,
            },
            r is Some ==> r->Some_0 > 0,
    {
        let bid = self.best_bid();
        let ask = self.best_ask();
        match (bid, ask) {
            (Some(b), Some(a)) => {
                proof {
                    lemma_first_occupied_entries(self.buy_levels@, self.order_pool.slots(), 0);
                    lemma_first_occupied_entries(self.sell_levels@, self.order_pool.slots(), 0);
                }
                Some(a - b)
            },
            _ => None,
        }
    }

    /// Whether the book is crossed (best bid at or above best ask). Under
    /// `wf` this is always false: a bid rests strictly below the base price
    /// and an ask at or above it.
    pub fn is_crossed(&self) -> (r: bool)
        requires
            self.wf(),
        ensures
            r == match (self.spec_best_bid(), self.spec_best_ask()) {
                (Some(bid), Some(ask)) => bid >= ask,
                _ => false,
            },
            r == false,
    {
        let bid = self.best_bid();
        let ask = self.best_ask();
        match (bid, ask) {
            (Some(b), Some(a)) => {
                proof {
                    lemma_first_occupied_entries(self.buy_levels@, self.order_pool.slots(), 0);
                    lemma_first_occupied_entries(self.sell_levels@, self.order_pool.slots(), 0);
                }
                b >= a
            },
            _ => false,
        }
    }
}

/// The depth snapshot of one side: the price and aggregate quantity of its
/// first `k` occupied levels, best price first.
pub open spec fn depth_snapshot(
    side: Seq<Option<Seq<Entry>>>,
    base: u64,
    ask: bool,
    from: int,
    k: int,
) -> Seq<(u64, u64)>
    decreases side.len() - from,
{
    if from < 0 || from >= side.len() || k <= 0 {
        Seq::empty()
    } else {
        match side[from] {
            None => depth_snapshot(side, base, ask, from + 1, k),
            Some(fifo) => Seq::empty().push(
                (level_price(base, ask, from) as u64, sum_qty(fifo) as u64),
            ) + depth_snapshot(side, base, ask, from + 1, k - 1),
        }
    }
}

/// Depth snapshots list prices strictly monotonically: descending on the
/// buy side, ascending on the sell side; and every listed price lies on or
/// past offset `from`.
pub proof fn lemma_depth_prices(
    side: Seq<Option<Seq<Entry>>>,
    base: u64,
    ask: bool,
    from: int,
    k: int,
)
    requires
        0 <= from,
        side.len() <= PRICE_LEVELS,
        PRICE_LEVELS as u64 <= base <= u64::MAX - PRICE_LEVELS as u64,
    ensures
        ({
            let r = depth_snapshot(side, base, ask, from, k);
            &&& forall|j: int|
                0 <= j < r.len() ==> if ask {
                    (#[trigger] r[j]).0 >= base + from
                } else {
                    r[j].0 <= base - from
                }
            &&& forall|j1: int, j2: int|
                0 <= j1 < j2 < r.len() ==> if ask {
                    (#[trigger] r[j1]).0 < (#[trigger] r[j2]).0
                } else {
                    r[j1].0 > r[j2].0
                }
        }),
    decreases side.len() - from,
{
    let r = depth_snapshot(side, base, ask, from, k);
    if from >= side.len() || k <= 0 {
    } else {
        match side[from] {
            None => {
                lemma_depth_prices(side, base, ask, from + 1, k);
                assert(r == depth_snapshot(side, base, ask, from + 1, k));
                assert forall|j: int|
                    0 <= j < r.len() implies (if ask {
                    (#[trigger] r[j]).0 >= base + from
                } else {
                    r[j].0 <= base - from
                }) by {
                    assert(r[j].0 == depth_snapshot(side, base, ask, from + 1, k)[j].0);
                }
            },
            Some(fifo) => {
                lemma_depth_prices(side, base, ask, from + 1, k - 1);
                let t = depth_snapshot(side, base, ask, from + 1, k - 1);
                let head = (level_price(base, ask, from) as u64, sum_qty(fifo) as u64);
                assert(r == Seq::empty().push(head) + t);
                assert(r[0] == head);
                assert(forall|j: int| 1 <= j < r.len() ==> r[j] == t[j - 1]);
                assert forall|j: int|
                    0 <= j < r.len() implies (if ask {
                    (#[trigger] r[j]).0 >= base + from
                } else {
                    r[j].0 <= base - from
                }) by {
                    if j > 0 {
                        assert(r[j] == t[j - 1]);
                    }
                }
                assert forall|j1: int, j2: int|
                    0 <= j1 < j2 < r.len() implies (if ask {
                    (#[trigger] r[j1]).0 < (#[trigger] r[j2]).0
                } else {
                    r[j1].0 > r[j2].0
                }) by {
                    assert(r[j2] == t[j2 - 1]);
                    if j1 > 0 {
                        assert(r[j1] == t[j1 - 1]);
                    }
                }
            },
        }
    }
}

impl OrderBook {
    /// Up to `levels` (price, aggregate quantity) pairs per side: bids in
    /// descending price order, asks ascending. The listed quantity of a
    /// level is the sum of the live quantities of the orders resting there.
    pub fn market_depth(&self, levels: usize) -> (r: (Vec<(u64, u64)>, Vec<(u64, u64)>))
        requires
            self.wf(),
        ensures
            r.0@ == depth_snapshot(self.bids(), self.spec_base_price(), false, 0, levels as int),
            r.1@ == depth_snapshot(self.asks(), self.spec_base_price(), true, 0, levels as int),
            forall|j1: int, j2: int|
                0 <= j1 < j2 < r.0@.len() ==> (#[trigger] r.0@[j1]).0 > (#[trigger] r.0@[j2]).0,
            forall|j1: int, j2: int|
                0 <= j1 < j2 < r.1@.len() ==> (#[trigger] r.1@[j1]).0 < (#[trigger] r.1@[j2]).0,
    {
        let ghost bview = self.bids();
        let ghost aview = self.asks();
        let mut bids: Vec<(u64, u64)> = Vec::new();
        let mut count: usize = 0;
        let mut idx: usize = 0;
        while idx < PRICE_LEVELS && count < levels
            invariant
                self.wf(),
                bview == self.bids(),
                0 <= idx <= PRICE_LEVELS,
                count <= levels,
                count == bids@.len(),
                depth_snapshot(bview, self.spec_base_price(), false, 0, levels as int) == bids@
                    + depth_snapshot(
                    bview,
                    self.spec_base_price(),
                    false,
                    idx as int,
                    levels - count,
                ),
            decreases PRICE_LEVELS - idx,
        {
            match &self.buy_levels[idx] {
                Some(level) => {
                    let price = self.buy_idx_to_price(idx);
                    bids.push((price, level.total_quantity));
                    count = count + 1;
                },
                None => {},
            }
            idx = idx + 1;
        }
        proof {
            assert(bids@ =~= depth_snapshot(
                bview,
                self.spec_base_price(),
                false,
                0,
                levels as int,
            ));
        }

        let mut asks: Vec<(u64, u64)> = Vec::new();
        let mut count: usize = 0;
        let mut idx: usize = 0;
        while idx < PRICE_LEVELS && count < levels
            invariant
                self.wf(),
                aview == self.asks(),
                0 <= idx <= PRICE_LEVELS,
                count <= levels,
                count == asks@.len(),
                depth_snapshot(aview, self.spec_base_price(), true, 0, levels as int) == asks@
                    + depth_snapshot(
                    aview,
                    self.spec_base_price(),
                    true,
                    idx as int,
                    levels - count,
                ),
            decreases PRICE_LEVELS - idx,
        {
            match &self.sell_levels[idx] {
                Some(level) => {
                    let price = self.sell_idx_to_price(idx);
                    asks.push((price, level.total_quantity));
                    count = count + 1;
                },
                None => {},
            }
            idx = idx + 1;
        }
        proof {
            assert(asks@ =~= depth_snapshot(
                aview,
                self.spec_base_price(),
                true,
                0,
                levels as int,
            ));
            lemma_depth_prices(bview, self.spec_base_price(), false, 0, levels as int);
            lemma_depth_prices(aview, self.spec_base_price(), true, 0, levels as int);
        }
        (bids, asks)
    }

    /// A snapshot of symbol, bests, occupied level counts and the running
    /// counters.
    pub fn summary(&self) -> (r: OrderBookSummary)
        requires
            self.wf(),
        ensures
            r.symbol@ == self.spec_symbol(),
            r.best_bid == self.spec_best_bid(),
            r.best_ask == self.spec_best_ask(),
            r.buy_levels == count_some_from(self.bids(), 0),
            r.sell_levels == count_some_from(self.asks(), 0),
            r.order_count == self.spec_order_count(),
            r.total_orders_processed == self.spec_processed(),
            r.total_quantity_matched == self.spec_matched(),
    {
        let ghost bview = self.bids();
        let ghost aview = self.asks();
        let mut buy_level_count: usize = 0;
        let mut idx: usize = 0;
        while idx < PRICE_LEVELS
            invariant
                self.wf(),
                bview == self.bids(),
                0 <= idx <= PRICE_LEVELS,
                buy_level_count <= idx,
                buy_level_count + count_some_from(bview, idx as int) == count_some_from(bview, 0),
            decreases PRICE_LEVELS - idx,
        {
            if self.buy_levels[idx].is_some() {
                buy_level_count = buy_level_count + 1;
            }
            idx = idx + 1;
        }

        let mut sell_level_count: usize = 0;
        let mut idx: usize = 0;
        while idx < PRICE_LEVELS
            invariant
                self.wf(),
                aview == self.asks(),
                0 <= idx <= PRICE_LEVELS,
                sell_level_count <= idx,
                sell_level_count + count_some_from(aview, idx as int) == count_some_from(aview, 0),
            decreases PRICE_LEVELS - idx,
        {
            if self.sell_levels[idx].is_some() {
                sell_level_count = sell_level_count + 1;
            }
            idx = idx + 1;
        }

        OrderBookSummary {
            symbol: self.symbol.clone(),
            best_bid: self.best_bid(),
            best_ask: self.best_ask(),
            buy_levels: buy_level_count,
            sell_levels: sell_level_count,
            order_count: self.order_count,
            total_orders_processed: self.total_orders_processed,
            total_quantity_matched: self.total_quantity_matched,
        }
    }
}

/// The executions appended after `base_len` report exactly `fills`, at one
/// price, for one resting side.
pub open spec fn execs_match(
    execs: Seq<Execution>,
    base_len: int,
    fills: Seq<Entry>,
    price: u64,
    side: Side,
) -> bool {
    forall|j: int|
        0 <= j < fills.len() ==> execs[base_len + j].order_id == (#[trigger] fills[j]).id
            && execs[base_len + j].quantity as int == fills[j].qty && execs[base_len + j].price
            == price && execs[base_len + j].side == side
}

/// Appending one execution that reports one more fill keeps the
/// correspondence between the two sequences.
proof fn lemma_execs_match_push(
    execs_pre: Seq<Execution>,
    base_len: int,
    fills_pre: Seq<Entry>,
    price: u64,
    side: Side,
    e: Execution,
    ent: Entry,
)
    requires
        execs_match(execs_pre, base_len, fills_pre, price, side),
        base_len >= 0,
        base_len + fills_pre.len() == execs_pre.len(),
        e.order_id == ent.id,
        e.quantity as int == ent.qty,
        e.price == price,
        e.side == side,
    ensures
        execs_match(execs_pre.push(e), base_len, fills_pre.push(ent), price, side),
{
    let execs2 = execs_pre.push(e);
    let fills2 = fills_pre.push(ent);
    assert forall|j: int|
        0 <= j < fills2.len() implies execs2[base_len + j].order_id == (#[trigger] fills2[j]).id
        && execs2[base_len + j].quantity as int == fills2[j].qty && execs2[base_len + j].price
        == price && execs2[base_len + j].side == side by {
        if j < fills_pre.len() {
            assert(fills2[j] == fills_pre[j]);
            assert(execs2[base_len + j] == execs_pre[base_len + j]);
        } else {
            assert(fills2[j] == ent);
            assert(execs2[base_len + j] == e);
        }
    }
}

/// Cross up to `qty` against one price level in strict FIFO order.
///
/// `level` is the occupied level at `price` whose resting side is `side`;
/// `pool`, `id_map` and the `matched` counter are the book's. The function
/// realises exactly what [`fill_fifo`] says on the level's abstraction:
/// each match consumes the head of the FIFO, a fully filled resting order
/// is removed from the level, its id cleared and its handle freed, and a
/// partially filled head stays in place with its quantity reduced.
#[verifier::rlimit(100)]
fn fill_level(
    level: &mut PriceLevel,
    pool: &mut OrderPool,
    id_map: &mut Vec<Option<usize>>,
    execs: &mut Vec<Execution>,
    matched: &mut u64,
    qty: u64,
    price: u64,
    side: Side,
) -> (remaining: u64)
    requires
        old(pool).wf(),
        old(pool).free_list().len() <= old(pool).slots().len(),
        level_fields_ok(*old(level), old(pool).slots(), old(id_map)@, price, side),
        *old(matched) + qty <= u64::MAX,
    ensures
        ({
            let fifo0 = old(level).order_indices@;
            let slots0 = old(pool).slots();
            let f = fill_fifo(level_entries(fifo0, slots0), qty as int);
            let removed = fifo0.len() - f.rest.len();
            &&& remaining as int == qty - f.taken
            &&& final(level).order_indices@ == fifo0.skip(removed as int)
            &&& final(level).price == price
            &&& final(level).total_quantity as int == old(level).total_quantity - f.taken
            &&& level_entries(final(level).order_indices@, final(pool).slots()) == f.rest
            &&& level_fields_ok(*final(level), final(pool).slots(), final(id_map)@, price, side)
            &&& final(pool).wf()
            &&& final(pool).slots().len() == slots0.len()
            &&& final(pool).free_list() == old(pool).free_list() + fifo0.take(removed as int)
            &&& forall|h: usize|
                h < slots0.len() && !fifo0.contains(h) ==> final(pool).slots()[h as int] == slots0[
                    h as int
                ]
            &&& forall|k: int|
                0 <= k < removed ==> final(pool).slots()[fifo0[k] as int] is None
            &&& forall|k: int|
                removed <= k < fifo0.len() ==> final(pool).slots()[fifo0[k] as int] is Some
                    && same_order_but_qty(
                    final(pool).slots()[fifo0[k] as int]->Some_0,
                    slots0[fifo0[k] as int]->Some_0,
                )
            &&& final(id_map)@.len() == old(id_map)@.len()
            &&& forall|k: int|
                0 <= k < removed ==> final(id_map)@[slots0[fifo0[k] as int]->Some_0.order_id as int]
                    is None
            &&& forall|id: int|
                0 <= id < old(id_map)@.len() && final(id_map)@[id] != old(id_map)@[id]
                    ==> final(id_map)@[id] is None && (exists|k: int|
                    0 <= k < removed && slots0[fifo0[k] as int]->Some_0.order_id as int == id)
            &&& final(execs)@.len() == old(execs)@.len() + f.fills.len()
            &&& forall|j: int| 0 <= j < old(execs)@.len() ==> final(execs)@[j] == old(execs)@[j]
            &&& execs_match(final(execs)@, old(execs)@.len() as int, f.fills, price, side)
            &&& *final(matched) == *old(matched) + f.taken
            &&& 0 <= f.taken <= qty
            &&& final(pool).free_list().len() <= final(pool).slots().len()
        }),
{
    let ghost fifo0 = level.order_indices@;
    let ghost slots0 = pool.slots();
    let ghost e0 = level_entries(fifo0, slots0);
    let ghost f = fill_fifo(e0, qty as int);
    proof {
        assert(fifo_positive(e0)) by {
            assert(forall|k: int|
                0 <= k < e0.len() ==> (#[trigger] e0[k]).qty == slots0[fifo0[k] as int]->Some_0.quantity
                    as int);
        }
        lemma_fill_fifo_basic(e0, qty as int);
    }
    let idn = id_map.len();
    let execs_len0 = execs.len();
    let mut remaining: u64 = qty;
    let ghost mut gdone: int = 0;
    let ghost mut gfills: Seq<Entry> = Seq::empty();
    while level.order_indices.len() > 0 && remaining > 0
        invariant
            pool.wf(),
            pool.free_list().len() <= pool.slots().len(),
            pool.slots().len() == slots0.len(),
            level_fields_ok(*level, pool.slots(), id_map@, price, side),
            id_map@.len() == idn,
            idn == old(id_map)@.len(),
            remaining <= qty,
            *old(matched) + qty <= u64::MAX,
            0 <= gdone <= fifo0.len(),
            gdone == fifo0.len() - level.order_indices@.len(),
            level.order_indices@ == fifo0.skip(gdone),
            level.total_quantity as int == old(level).total_quantity - (qty - remaining),
            fifo_positive(e0),
            forall|k1: int, k2: int| 0 <= k1 < k2 < fifo0.len() ==> fifo0[k1] != fifo0[k2],
            forall|k: int|
                0 <= k < fifo0.len() ==> handle_ok(
                    #[trigger] fifo0[k],
                    slots0,
                    old(id_map)@,
                    price,
                    side,
                ),
            f == fill_fifo(e0, qty as int),
            e0 == level_entries(fifo0, slots0),
            fifo0 == old(level).order_indices@,
            slots0 == old(pool).slots(),
            ({
                let fc = fill_fifo(
                    level_entries(level.order_indices@, pool.slots()),
                    remaining as int,
                );
                &&& f.rest == fc.rest
                &&& f.taken == (qty - remaining) + fc.taken
                &&& f.fills == gfills + fc.fills
            }),
            *matched == *old(matched) + (qty - remaining),
            execs@.len() == execs_len0 + gfills.len(),
            execs_len0 == old(execs)@.len(),
            forall|j: int| 0 <= j < execs_len0 ==> execs@[j] == old(execs)@[j],
            execs_match(execs@, execs_len0 as int, gfills, price, side),
            forall|h: usize|
                h < slots0.len() && !fifo0.contains(h) ==> pool.slots()[h as int] == slots0[h as int],
            pool.free_list() == old(pool).free_list() + fifo0.take(gdone),
            forall|k: int| 0 <= k < gdone ==> pool.slots()[fifo0[k] as int] is None,
            forall|k: int|
                gdone <= k < fifo0.len() ==> pool.slots()[fifo0[k] as int] is Some
                    && same_order_but_qty(
                    pool.slots()[fifo0[k] as int]->Some_0,
                    slots0[fifo0[k] as int]->Some_0,
                ),
            forall|k: int|
                0 <= k < gdone ==> id_map@[slots0[fifo0[k] as int]->Some_0.order_id as int] is None,
            forall|id: int|
                0 <= id < idn && id_map@[id] != old(id_map)@[id] ==> id_map@[id] is None && (
                exists|k: int|
                    0 <= k < gdone && slots0[fifo0[k] as int]->Some_0.order_id as int == id),
        decreases remaining,
    {
        let ghost cur = level.order_indices@;
        let ghost cur_e = level_entries(cur, pool.slots());
        let ghost fc = fill_fifo(cur_e, remaining as int);
        let ghost slots_entry = pool.slots();
        let ghost execs_entry = execs@;
        let ghost gfills_entry = gfills;
        let ghost gdone_entry = gdone;
        let h = level.order_indices[0];
        proof {
            assert(handle_ok(h, pool.slots(), id_map@, price, side));
            assert(cur_e[0] == Entry {
                id: pool.slots()[h as int]->Some_0.order_id,
                qty: pool.slots()[h as int]->Some_0.quantity as int,
            });
            assert(fifo_positive(cur_e)) by {
                assert(forall|k: int|
                    0 <= k < cur_e.len() ==> (#[trigger] cur_e[k]).qty == pool.slots()[cur[k] as int]->Some_0.quantity
                        as int);
            }
            lemma_fill_fifo_basic(cur_e, remaining as int);
            lemma_sum_qty_nonneg(cur_e);
        }
        let ord = *pool.get(h);
        let m = if ord.quantity < remaining {
            ord.quantity
        } else {
            remaining
        };
        let newq = ord.quantity - m;
        pool.set_quantity(h, newq);
        remaining = remaining - m;
        proof {
            // Only the slot of the head handle changed, so every other
            // handle's abstraction is untouched.
            assert(sum_qty(cur_e) >= cur_e[0].qty);
        }
        level.total_quantity = level.total_quantity - m;
        *matched = *matched + m;
        execs.push(
            Execution {
                order_id: ord.order_id,
                price,
                quantity: m,
                timestamp: crate::types::precise_time_ns(),
                side,
            },
        );
        proof {
            gfills = gfills.push(Entry { id: ord.order_id, qty: m as int });
        }
        if newq == 0 {
            let _removed_handle = level.order_indices.remove(0);
            let id_usize = ord.order_id as usize;
            id_map.set(id_usize, None);
            pool.deallocate(h);
            proof {
                assert(h == fifo0[gdone]);
                assert(slots0[h as int]->Some_0.order_id == ord.order_id);
                gdone = gdone + 1;
                assert forall|k: int|
                    0 <= k < gdone implies id_map@[slots0[fifo0[k] as int]->Some_0.order_id as int]
                    is None by {
                    if k == gdone - 1 {
                        assert(fifo0[k] == h);
                    } else {
                        let idk = slots0[fifo0[k] as int]->Some_0.order_id as int;
                        assert(handle_ok(fifo0[k], slots0, old(id_map)@, price, side));
                        assert(0 <= idk < idn);
                    }
                }
                let cur2 = level.order_indices@;
                let cur_e2 = level_entries(cur2, pool.slots());
                assert(cur2 =~= fifo0.skip(gdone)) by {
                    assert(cur2 =~= cur.skip(1));
                    assert(cur.skip(1) =~= fifo0.skip(gdone));
                }
                assert(pool.free_list() =~= old(pool).free_list() + fifo0.take(gdone)) by {
                    assert(fifo0.take(gdone) =~= fifo0.take(gdone - 1).push(h));
                }
                // Remaining handles are distinct from the removed head, so
                // their slots and abstractions are unchanged.
                assert forall|k: int| 0 <= k < cur2.len() implies cur2[k] != h by {
                    assert(cur2[k] == cur[k + 1]);
                }
                assert(cur_e2 =~= cur_e.skip(1)) by {
                    assert forall|k: int| 0 <= k < cur_e2.len() implies cur_e2[k] == cur_e.skip(
                        1,
                    )[k] by {
                        assert(cur2[k] == cur[k + 1]);
                        assert(cur2[k] != h);
                    }
                }
                assert(level_fields_ok(*level, pool.slots(), id_map@, price, side)) by {
                    assert forall|k: int|
                        0 <= k < cur2.len() implies handle_ok(
                        #[trigger] cur2[k],
                        pool.slots(),
                        id_map@,
                        price,
                        side,
                    ) by {
                        assert(cur2[k] == cur[k + 1]);
                        assert(cur2[k] != h);
                    }
                    assert(level.total_quantity as int == sum_qty(cur_e2)) by {
                        assert(sum_qty(cur_e) == cur_e[0].qty + sum_qty(cur_e.drop_first()));
                        assert(cur_e.drop_first() =~= cur_e.skip(1));
                    }
                }
            }
        } else {
            proof {
                assert(h == fifo0[gdone]);
                let cur_e2 = level_entries(level.order_indices@, pool.slots());
                assert(cur_e2 =~= Seq::empty().push(
                    Entry { id: ord.order_id, qty: newq as int },
                ) + cur_e.skip(1)) by {
                    assert forall|k: int| 0 <= k < cur_e2.len() implies cur_e2[k] == (
                    Seq::empty().push(Entry { id: ord.order_id, qty: newq as int }) + cur_e.skip(
                        1,
                    ))[k] by {
                        if k > 0 {
                            assert(cur[k] != h);
                        }
                    }
                }
                assert(level.total_quantity as int == sum_qty(cur_e2)) by {
                    lemma_sum_qty_singleton(Entry { id: ord.order_id, qty: newq as int });
                    lemma_sum_qty_add(
                        Seq::empty().push(Entry { id: ord.order_id, qty: newq as int }),
                        cur_e.skip(1),
                    );
                    assert(sum_qty(cur_e) == cur_e[0].qty + sum_qty(cur_e.drop_first()));
                    assert(cur_e.drop_first() =~= cur_e.skip(1));
                }
            }
        }
        proof {
            assert(h == fifo0[gdone_entry]);
            assert(gfills == gfills_entry.push(Entry { id: ord.order_id, qty: m as int }));
            lemma_execs_match_push(
                execs_entry,
                execs_len0 as int,
                gfills_entry,
                price,
                side,
                execs@.last(),
                Entry { id: ord.order_id, qty: m as int },
            );
            assert(execs@ == execs_entry.push(execs@.last()));
            assert(execs_match(execs@, execs_len0 as int, gfills, price, side));
            assert forall|k: int| 0 <= k < gdone implies pool.slots()[fifo0[k] as int]
                is None by {
                if newq == 0 {
                    if k == gdone - 1 {
                        assert(fifo0[k] == h);
                    } else {
                        assert(fifo0[k] != fifo0[gdone_entry]);
                        assert(fifo0[k] != h);
                        assert(pool.slots()[fifo0[k] as int] == slots_entry[fifo0[k] as int]);
                    }
                } else {
                    assert(fifo0[k] != fifo0[gdone_entry]);
                    assert(fifo0[k] != h);
                    assert(pool.slots()[fifo0[k] as int] == slots_entry[fifo0[k] as int]);
                }
            }
            assert forall|k: int|
                gdone <= k < fifo0.len() implies pool.slots()[fifo0[k] as int] is Some
                && same_order_but_qty(
                pool.slots()[fifo0[k] as int]->Some_0,
                slots0[fifo0[k] as int]->Some_0,
            ) by {
                if newq == 0 {
                    assert(fifo0[k] != fifo0[gdone_entry]);
                    assert(fifo0[k] != h);
                    assert(pool.slots()[fifo0[k] as int] == slots_entry[fifo0[k] as int]);
                } else {
                    if k == gdone {
                        assert(fifo0[k] == h);
                        assert(pool.slots()[h as int] == Some(
                            Order { quantity: newq, ..slots_entry[h as int]->Some_0 },
                        ));
                    } else {
                        assert(fifo0[k] != fifo0[gdone_entry]);
                        assert(fifo0[k] != h);
                        assert(pool.slots()[fifo0[k] as int] == slots_entry[fifo0[k] as int]);
                    }
                }
            }
        }
    }
    proof {
        lemma_fill_fifo_basic(e0, qty as int);
        let cur_exit = level.order_indices@;
        let ce = level_entries(cur_exit, pool.slots());
        let fc = fill_fifo(ce, remaining as int);
        assert(fc.fills =~= Seq::<Entry>::empty());
        assert(fc.rest == ce);
        assert(fc.taken == 0);
        assert(f.rest == ce);
        assert(f.taken == qty - remaining);
        assert(f.fills =~= gfills + fc.fills);
        assert(f.fills =~= gfills);
        assert(ce.len() == cur_exit.len());
        assert(fifo0.len() - f.rest.len() == gdone);
        assert(execs_match(execs@, execs_len0 as int, f.fills, price, side));
    }
    remaining
}

/// The executions of a sweep report its fills one for one: the resting
/// order's id and the crossed quantity, at the swept level's price, with
/// the resting side.
pub open spec fn exec_reports_fill(e: Execution, fl: Fill, base: u64, ask: bool) -> bool {
    &&& e.order_id == fl.id
    &&& e.quantity as int == fl.qty
    &&& e.price as int == level_price(base, ask, fl.off)
    &&& e.side == (if ask {
        Side::Sell
    } else {
        Side::Buy
    })
}

pub open spec fn sweep_execs_match(
    execs: Seq<Execution>,
    fills: Seq<Fill>,
    base: u64,
    ask: bool,
) -> bool {
    &&& execs.len() == fills.len()
    &&& forall|j: int|
        0 <= j < fills.len() ==> exec_reports_fill(execs[j], #[trigger] fills[j], base, ask)
}

/// Appending one level's executions extends the fill correspondence of the
/// whole sweep.
proof fn lemma_sweep_execs_extend(
    execs0: Seq<Execution>,
    fills0: Seq<Fill>,
    base: u64,
    ask: bool,
    execs1: Seq<Execution>,
    lv_fills: Seq<Entry>,
    off: int,
)
    requires
        sweep_execs_match(execs0, fills0, base, ask),
        execs1.len() == execs0.len() + lv_fills.len(),
        forall|j: int| 0 <= j < execs0.len() ==> execs1[j] == execs0[j],
        execs_match(
            execs1,
            execs0.len() as int,
            lv_fills,
            level_price(base, ask, off) as u64,
            if ask {
                Side::Sell
            } else {
                Side::Buy
            },
        ),
        PRICE_LEVELS as u64 <= base <= u64::MAX - PRICE_LEVELS as u64,
        0 <= off < PRICE_LEVELS,
    ensures
        sweep_execs_match(execs1, fills0 + at_offset(off, lv_fills), base, ask),
{
    let fills1 = fills0 + at_offset(off, lv_fills);
    lemma_at_offset_sum(off, lv_fills);
    assert(fills1.len() == execs1.len());
    assert forall|j: int|
        0 <= j < fills1.len() implies exec_reports_fill(
        execs1[j],
        #[trigger] fills1[j],
        base,
        ask,
    ) by {
        if j < fills0.len() {
            assert(fills1[j] == fills0[j]);
            assert(exec_reports_fill(execs0[j], fills0[j], base, ask));
        } else {
            let j2 = j - fills0.len();
            assert(fills1[j] == at_offset(off, lv_fills)[j2]);
            assert(at_offset(off, lv_fills)[j2] == (Fill {
                off,
                id: lv_fills[j2].id,
                qty: lv_fills[j2].qty,
            }));
            assert(execs1[execs0.len() + j2].order_id == lv_fills[j2].id);
            assert(execs1[execs0.len() + j2].quantity as int == lv_fills[j2].qty);
            assert(execs1[execs0.len() + j2].price == level_price(base, ask, off) as u64);
            assert(0 <= level_price(base, ask, off) <= u64::MAX);
        }
    }
}

/// Take the level at offset `i` out of the side, leaving the slot vacant.
fn take_level(levels: &mut Vec<Option<PriceLevel>>, i: usize) -> (r: Option<PriceLevel>)
    requires
        i < old(levels)@.len(),
    ensures
        final(levels)@ == old(levels)@.update(i as int, None::<PriceLevel>),
        r == old(levels)@[i as int],
{
    let lvl = levels.remove(i);
    levels.insert(i, None);
    proof {
        assert(final(levels)@ =~= old(levels)@.update(i as int, None::<PriceLevel>));
    }
    lvl
}

/// Put a level back into the slot at offset `i`.
fn put_level(levels: &mut Vec<Option<PriceLevel>>, i: usize, lvl: Option<PriceLevel>)
    requires
        i < old(levels)@.len(),
    ensures
        final(levels)@ == old(levels)@.update(i as int, lvl),
{
    let _ = levels.remove(i);
    levels.insert(i, lvl);
    proof {
        assert(final(levels)@ =~= old(levels)@.update(i as int, lvl));
    }
}


impl OrderBook {
    /// The stored levels of the side a sweep consumes.
    pub closed spec fn swept_levels(&self, ask: bool) -> Seq<Option<PriceLevel>> {
        if ask {
            self.sell_levels@
        } else {
            self.buy_levels@
        }
    }

    /// Cross up to `qty` against one side of the book, best price first,
    /// visiting tick offsets `0 .. stop`. Realises exactly what
    /// [`sweep_levels`] says on that side's abstraction. The best-price
    /// caches and the live-order counter are left for the caller to
    /// refresh.
    #[verifier::rlimit(100)]
    fn sweep_opposite(&mut self, ask: bool, stop: usize, qty: u64) -> (r: (Vec<Execution>, u64))
        requires
            old(self).wf_core(),
            stop <= PRICE_LEVELS,
            old(self).spec_matched() + qty <= u64::MAX,
        ensures
            ({
                let view0 = if ask {
                    old(self).asks()
                } else {
                    old(self).bids()
                };
                let s = sweep_levels(view0, 0, stop as int, qty as int);
                &&& final(self).wf_core()
                &&& (if ask {
                    final(self).asks() == s.side && final(self).bids() == old(self).bids()
                        && final(self).buy_levels@ == old(self).buy_levels@
                } else {
                    final(self).bids() == s.side && final(self).asks() == old(self).asks()
                        && final(self).sell_levels@ == old(self).sell_levels@
                })
                &&& r.1 as int == qty - s.taken
                &&& 0 <= s.taken <= qty
                &&& sweep_execs_match(r.0@, s.fills, old(self).spec_base_price(), ask)
                &&& final(self).spec_matched() as int == old(self).spec_matched() + s.taken
                &&& final(self).spec_processed() == old(self).spec_processed()
                &&& final(self).spec_base_price() == old(self).spec_base_price()
                &&& final(self).spec_symbol() == old(self).spec_symbol()
                &&& final(self).spec_capacity() == old(self).spec_capacity()
                &&& final(self).spec_available() == old(self).spec_available() + (side_orders(
                    view0,
                ) - side_orders(s.side))
                &&& final(self).spec_order_count() == old(self).spec_order_count()
                &&& final(self).cached_bid_off() == old(self).cached_bid_off()
                &&& final(self).cached_ask_off() == old(self).cached_ask_off()
                &&& final(self).order_id_to_index@.len() == old(self).order_id_to_index@.len()
                &&& forall|id: u64| final(self).live_id(id) ==> old(self).live_id(id)
            }),
    {
        let ghost view0 = if ask {
            self.asks()
        } else {
            self.bids()
        };
        let ghost s = sweep_levels(view0, 0, stop as int, qty as int);
        proof {
            assert(side_positive(view0)) by {
                lemma_side_positive_of_ok(self.swept_levels(ask), self.order_pool.slots(),
                    self.order_id_to_index@, self.base_price, ask);
            }
            lemma_sweep_basic(view0, 0, stop as int, qty as int);
        }
        let slot_count = self.order_pool.total_capacity();
        let mut execs: Vec<Execution> = Vec::new();
        let mut remaining: u64 = qty;
        let mut i: usize = 0;
        let ghost mut gsf: Seq<Fill> = Seq::empty();
        while i < stop && remaining > 0
            invariant
                self.wf_core(),
                i <= stop,
                stop <= PRICE_LEVELS,
                remaining <= qty,
                old(self).wf_core(),
                old(self).spec_matched() + qty <= u64::MAX,
                view0 == if ask { old(self).asks() } else { old(self).bids() },
                s == sweep_levels(view0, 0, stop as int, qty as int),
                self.base_price == old(self).base_price,
                self.tick_size == old(self).tick_size,
                self.symbol@ == old(self).symbol@,
                self.total_orders_processed == old(self).total_orders_processed,
                self.max_order_id == old(self).max_order_id,
                self.best_bid_idx == old(self).best_bid_idx,
                self.best_ask_idx == old(self).best_ask_idx,
                self.order_count == old(self).order_count,
                self.order_id_to_index@.len() == old(self).order_id_to_index@.len(),
                self.order_pool.slots().len() == old(self).order_pool.slots().len(),
                self.order_pool.slots().len() == slot_count,
                self.total_quantity_matched as int == old(self).total_quantity_matched + (qty
                    - remaining),
                (if ask {
                    self.buy_levels@ == old(self).buy_levels@ && self.bids() == old(self).bids()
                } else {
                    self.sell_levels@ == old(self).sell_levels@ && self.asks() == old(
                        self,
                    ).asks()
                }),
                ({
                    let sv = if ask { self.asks() } else { self.bids() };
                    let srest = sweep_levels(sv, i as int, stop as int, remaining as int);
                    &&& s.side == srest.side
                    &&& s.taken == (qty - remaining) + srest.taken
                    &&& s.fills == gsf + srest.fills
                }),
                sweep_execs_match(execs@, gsf, old(self).spec_base_price(), ask),
                self.order_pool.free_list().len() as int == old(self).order_pool.free_list().len()
                    + (side_orders(view0) - side_orders(
                    if ask { self.asks() } else { self.bids() },
                )),
                forall|id: u64| self.live_id(id) ==> old(self).live_id(id),
            decreases stop - i,
        {
            let ghost lvls_b = self.swept_levels(ask);
            let ghost slots_b = self.order_pool.slots();
            let ghost idm_b = self.order_id_to_index@;
            let ghost sv_b = if ask { self.asks() } else { self.bids() };
            let ghost rem_b = remaining;
            let is_occ = if ask {
                self.sell_levels[i].is_some()
            } else {
                self.buy_levels[i].is_some()
            };
            if is_occ {
                let price = if ask {
                    self.base_price + (i as u64)
                } else {
                    self.base_price - (i as u64)
                };
                let rs = if ask {
                    Side::Sell
                } else {
                    Side::Buy
                };
                proof {
                    assert(sv_b[i as int] is Some);
                    assert(level_ok(lvls_b[i as int]->Some_0, slots_b, idm_b, price, rs));
                }
                let ghost buy_b = self.buy_levels@;
                let ghost sell_b = self.sell_levels@;
                let ghost execs_b = execs@;
                let lvl_opt = if ask {
                    take_level(&mut self.sell_levels, i)
                } else {
                    take_level(&mut self.buy_levels, i)
                };
                let mut level = match lvl_opt {
                    Some(l) => l,
                    None => unreached(),
                };
                let ghost fifo_i = level.order_indices@;
                let ghost e_i = level_entries(fifo_i, slots_b);
                proof {
                    assert(e_i == sv_b[i as int]->Some_0);
                    assert(level_ok(lvls_b[i as int]->Some_0, slots_b, idm_b, price, rs));
                    assert(level_fields_ok(level, slots_b, idm_b, price, rs));
                }
                let rem2 = fill_level(
                    &mut level,
                    &mut self.order_pool,
                    &mut self.order_id_to_index,
                    &mut execs,
                    &mut self.total_quantity_matched,
                    remaining,
                    price,
                    rs,
                );
                let ghost ff = fill_fifo(e_i, rem_b as int);
                let ghost removed = fifo_i.len() - ff.rest.len();
                let ghost lvl_after = level;
                let keep = level.order_count() > 0;
                if keep {
                    if ask {
                        put_level(&mut self.sell_levels, i, Some(level));
                    } else {
                        put_level(&mut self.buy_levels, i, Some(level));
                    }
                } else {
                    proof {
                        assert(ff.rest.len() == 0);
                    }
                }
                remaining = rem2;
                proof {
                    lemma_fill_fifo_basic(e_i, rem_b as int);
                    let slots_a = self.order_pool.slots();
                    let idm_a = self.order_id_to_index@;
                    let lvl_a: Option<PriceLevel> = if ff.rest.len() == 0 {
                        None
                    } else {
                        Some(lvl_after)
                    };
                    assert(self.swept_levels(ask) =~= lvls_b.update(i as int, lvl_a));
                    assert((if ask { self.buy_levels@ } else { self.sell_levels@ })
                        == (if ask { buy_b } else { sell_b }));
                    lemma_restore_after_fill(
                        buy_b,
                        sell_b,
                        self.buy_levels@,
                        self.sell_levels@,
                        slots_b,
                        slots_a,
                        idm_b,
                        idm_a,
                        self.base_price,
                        ask,
                        i as int,
                        fifo_i,
                        removed,
                        ff.rest,
                        lvl_a,
                    );
                    let sv_a = if ask { self.asks() } else { self.bids() };
                    assert(sv_a == sv_b.update(i as int, if ff.rest.len() == 0 {
                        None
                    } else {
                        Some(ff.rest)
                    }));
                    lemma_sweep_execs_extend(
                        execs_b,
                        gsf,
                        old(self).spec_base_price(),
                        ask,
                        execs@,
                        ff.fills,
                        i as int,
                    );
                    gsf = gsf + at_offset(i as int, ff.fills);
                    lemma_side_orders_update(sv_b, i as int, sv_a[i as int]);
                    lemma_at_offset_sum(i as int, ff.fills);
                    // Unfold the sweep at this offset to shift the
                    // composition one level forward.
                    let srest_b = sweep_levels(sv_b, i as int, stop as int, rem_b as int);
                    let srest_a = sweep_levels(
                        sv_a,
                        i as int + 1,
                        stop as int,
                        remaining as int,
                    );
                    if ff.rest.len() == 0 {
                        assert(srest_b.fills == at_offset(i as int, ff.fills) + srest_a.fills);
                        assert(srest_b.side == srest_a.side);
                        assert(srest_b.taken == ff.taken + srest_a.taken);
                    } else {
                        assert(ff.taken == rem_b as int);
                        assert(remaining == 0);
                        assert(srest_a.fills =~= Seq::<Fill>::empty());
                        assert(srest_b.fills == at_offset(i as int, ff.fills));
                        assert(s.fills =~= gsf + srest_a.fills);
                    }
                }
            } else {
                proof {
                    assert(sv_b[i as int] is None);
                }
            }
            i = i + 1;
        }
        proof {
            let sv = if ask { self.asks() } else { self.bids() };
            let srest = sweep_levels(sv, i as int, stop as int, remaining as int);
            assert(srest.fills =~= Seq::<Fill>::empty());
            assert(s.fills =~= gsf);
        }
        (execs, remaining)
    }
}


/// One side after a resting order is cancelled: the entry at position `k`
/// of the FIFO at offset `off` disappears, and the level's slot becomes
/// vacant when it was the last one.
pub open spec fn remove_entry_at(side: Seq<Option<Seq<Entry>>>, off: int, k: int) -> Seq<
    Option<Seq<Entry>>,
> {
    let fifo = side[off]->Some_0;
    if fifo.len() <= 1 {
        side.update(off, None)
    } else {
        side.update(off, Some(fifo.remove(k)))
    }
}

impl OrderBook {
    /// Cancel the resting order named by `order_id`, removing it from its
    /// level while preserving the relative order of the remaining orders,
    /// releasing its pool slot and clearing its id. Fails with
    /// `OrderNotFound` exactly when no such order rests, and then changes
    /// nothing.
    #[verifier::rlimit(100)]
    pub fn cancel_order(&mut self, order_id: u64) -> (r: Result<(), BookError>)
        requires
            old(self).wf(),
        ensures
            final(self).wf(),
            final(self).spec_base_price() == old(self).spec_base_price(),
            final(self).spec_symbol() == old(self).spec_symbol(),
            final(self).spec_processed() == old(self).spec_processed(),
            final(self).spec_matched() == old(self).spec_matched(),
            final(self).spec_capacity() == old(self).spec_capacity(),
            !old(self).live_id(order_id) ==> {
                &&& r == Err::<(), BookError>(BookError::OrderNotFound)
                &&& final(self).bids() == old(self).bids()
                &&& final(self).asks() == old(self).asks()
                &&& forall|id: u64| final(self).live_id(id) == old(self).live_id(id)
                &&& final(self).spec_order_count() == old(self).spec_order_count()
                &&& final(self).spec_available() == old(self).spec_available()
            },
            old(self).live_id(order_id) ==> {
                &&& r == Ok::<(), BookError>(())
                &&& !final(self).live_id(order_id)
                &&& forall|id: u64|
                    id != order_id ==> final(self).live_id(id) == old(self).live_id(id)
                &&& final(self).spec_available() == old(self).spec_available() + 1
                &&& final(self).spec_order_count() == old(self).spec_order_count() - 1
                &&& ({
                    ||| (exists|off: int, k: int|
                        {
                            &&& 0 <= off < old(self).bids().len()
                            &&& old(self).bids()[off] is Some
                            &&& 0 <= k < old(self).bids()[off]->Some_0.len()
                            &&& (#[trigger] old(self).bids()[off]->Some_0[k]).id == order_id
                            &&& final(self).bids() == remove_entry_at(old(self).bids(), off, k)
                            &&& final(self).asks() == old(self).asks()
                        })
                    ||| (exists|off: int, k: int|
                        {
                            &&& 0 <= off < old(self).asks().len()
                            &&& old(self).asks()[off] is Some
                            &&& 0 <= k < old(self).asks()[off]->Some_0.len()
                            &&& (#[trigger] old(self).asks()[off]->Some_0[k]).id == order_id
                            &&& final(self).asks() == remove_entry_at(old(self).asks(), off, k)
                            &&& final(self).bids() == old(self).bids()
                        })
                })
            },
    {
        let idn = self.order_id_to_index.len();
        if order_id >= idn as u64 {
            return Err(BookError::OrderNotFound);
        }
        let idx_opt = self.order_id_to_index[order_id as usize];
        let h = match idx_opt {
            Some(h) => h,
            None => {
                return Err(BookError::OrderNotFound);
            },
        };
        proof {
            assert(self.order_id_to_index@[order_id as int] is Some);
            assert(id_entry_ok(
                order_id as int,
                h,
                self.order_pool.slots(),
                self.buy_levels@,
                self.sell_levels@,
                self.base_price,
            ));
        }
        let slot_count = self.order_pool.total_capacity();
        let ghost buy_b = self.buy_levels@;
        let ghost sell_b = self.sell_levels@;
        let ghost slots_b = self.order_pool.slots();
        let ghost idm_b = self.order_id_to_index@;
        let ghost bids_b = self.bids();
        let ghost asks_b = self.asks();
        let ord = *self.order_pool.get(h);
        let is_buy = match ord.side {
            Side::Buy => true,
            Side::Sell => false,
        };
        let off = if is_buy {
            match self.buy_price_to_idx(ord.price) {
                Some(off) => off,
                None => unreached(),
            }
        } else {
            match self.sell_price_to_idx(ord.price) {
                Some(off) => off,
                None => unreached(),
            }
        };
        let ghost fifo = (if is_buy { buy_b } else { sell_b })[off as int]->Some_0.order_indices@;
        let ghost e_b = level_entries(fifo, slots_b);
        proof {
            assert(level_ok(
                (if is_buy { buy_b } else { sell_b })[off as int]->Some_0,
                slots_b,
                idm_b,
                level_price(self.base_price, !is_buy, off as int) as u64,
                ord.side,
            ));
        }
        let lvl_opt = if is_buy {
            take_level(&mut self.buy_levels, off)
        } else {
            take_level(&mut self.sell_levels, off)
        };
        let mut level = match lvl_opt {
            Some(l) => l,
            None => unreached(),
        };
        let ghost k = fifo.index_of_first(h)->Some_0;
        proof {
            fifo.index_of_first_ensures(h);
            assert(fifo.contains(h)) by {
                let kk = choose|kk: int| 0 <= kk < fifo.len() && fifo[kk] == h;
                assert(fifo[kk] == h);
            }
            // The level total covers the cancelled order's quantity.
            assert(e_b[k].qty == ord.quantity as int);
            assert(fifo_positive(e_b)) by {
                assert(forall|kk: int|
                    0 <= kk < e_b.len() ==> (#[trigger] e_b[kk]).qty == slots_b[fifo[kk] as int]->Some_0.quantity
                        as int);
            }
            lemma_sum_qty_ge_elem(e_b, k);
        }
        let _removed = level.remove_order(h, ord.quantity);
        let keep = level.order_count() > 0;
        let ghost lvl_after = level;
        if keep {
            if is_buy {
                put_level(&mut self.buy_levels, off, Some(level));
            } else {
                put_level(&mut self.sell_levels, off, Some(level));
            }
        } else {
            // The level is gone; rescan the best price if it was cached
            // at this offset.
            if is_buy {
                let stale = match self.best_bid_idx {
                    Some(b) => b == off,
                    None => false,
                };
                if stale {
                    self.best_bid_idx = self.find_best_bid_idx();
                }
            } else {
                let stale = match self.best_ask_idx {
                    Some(b) => b == off,
                    None => false,
                };
                if stale {
                    self.best_ask_idx = self.find_best_ask_idx();
                }
            }
        }
        self.order_pool.deallocate(h);
        self.order_id_to_index.set(order_id as usize, None);
        self.order_count = self.order_pool.total_capacity() - self.order_pool.available_capacity();
        proof {
            let slots_a = self.order_pool.slots();
            let idm_a = self.order_id_to_index@;
            let lvl_a: Option<PriceLevel> = if fifo.len() <= 1 {
                None
            } else {
                Some(lvl_after)
            };
            assert(fifo.len() <= 1 <==> !keep) by {
                assert(lvl_after.order_indices@ == fifo.remove(k));
            }
            assert(self.swept_levels(!is_buy) =~= (if is_buy { buy_b } else { sell_b }).update(
                off as int,
                lvl_a,
            ));
            assert(idm_a =~= idm_b.update(order_id as int, None::<usize>));
            lemma_restore_after_cancel(
                buy_b,
                sell_b,
                self.buy_levels@,
                self.sell_levels@,
                slots_b,
                slots_a,
                idm_b,
                idm_a,
                self.base_price,
                !is_buy,
                off as int,
                k,
                h,
                lvl_a,
            );
            // The best-price caches are still exact.
            if is_buy {
                assert(best_ok(self.best_bid_idx, self.buy_levels@)) by {
                    if keep {
                        assert(forall|i: int|
                            0 <= i < buy_b.len() ==> (#[trigger] self.buy_levels@[i]) is Some
                                == buy_b[i] is Some);
                    } else {
                        match old(self).best_bid_idx {
                            Some(b) => {
                                if b != off {
                                    assert(self.buy_levels@[b as int] is Some);
                                }
                            },
                            None => {
                                assert(buy_b[off as int] is Some);
                                assert(false);
                            },
                        }
                    }
                }
                assert(best_ok(self.best_ask_idx, self.sell_levels@));
            } else {
                assert(best_ok(self.best_ask_idx, self.sell_levels@)) by {
                    if keep {
                        assert(forall|i: int|
                            0 <= i < sell_b.len() ==> (#[trigger] self.sell_levels@[i]) is Some
                                == sell_b[i] is Some);
                    } else {
                        match old(self).best_ask_idx {
                            Some(b) => {
                                if b != off {
                                    assert(self.sell_levels@[b as int] is Some);
                                }
                            },
                            None => {
                                assert(sell_b[off as int] is Some);
                                assert(false);
                            },
                        }
                    }
                }
                assert(best_ok(self.best_bid_idx, self.buy_levels@));
            }
            // Witness for the removal shape in the postcondition.
            if is_buy {
                assert(bids_b[off as int] is Some);
                assert(bids_b[off as int]->Some_0 == e_b);
                assert(e_b[k].id == order_id);
                assert(self.bids() == remove_entry_at(bids_b, off as int, k));
                assert(self.asks() == asks_b);
            } else {
                assert(asks_b[off as int] is Some);
                assert(asks_b[off as int]->Some_0 == e_b);
                assert(e_b[k].id == order_id);
                assert(self.asks() == remove_entry_at(asks_b, off as int, k));
                assert(self.bids() == bids_b);
            }
        }
        Ok(())
    }
}


/// Whether a limit price falls inside its side's admissible window.
pub open spec fn price_admissible(base: u64, side: Side, price: u64) -> bool {
    if side == Side::Buy {
        price < base && base - price < PRICE_LEVELS as int
    } else {
        price >= base && price - base < PRICE_LEVELS as int
    }
}

/// The tick offset a limit price rests at.
pub open spec fn spec_offset(base: u64, side: Side, price: u64) -> int {
    if side == Side::Buy {
        base - price
    } else {
        price - base
    }
}

/// Where a bounded sweep stops: one past the last opposite offset whose
/// price the incoming limit still accepts; a market order sweeps the whole
/// window.
pub open spec fn spec_stop(base: u64, side: Side, kind: OrderType, price: u64) -> int {
    if kind == OrderType::Market {
        PRICE_LEVELS as int
    } else if side == Side::Buy {
        if price < base {
            0
        } else if price - base + 1 > PRICE_LEVELS as int {
            PRICE_LEVELS as int
        } else {
            price - base + 1
        }
    } else {
        if price > base {
            0
        } else if base - price + 1 > PRICE_LEVELS as int {
            PRICE_LEVELS as int
        } else {
            base - price + 1
        }
    }
}

/// One side after a residual rests: the entry joins the tail of the FIFO
/// at offset `off`, a vacant slot growing a fresh one-order level.
pub open spec fn rest_at(side: Seq<Option<Seq<Entry>>>, off: int, e: Entry) -> Seq<
    Option<Seq<Entry>>,
> {
    match side[off] {
        Some(fifo) => side.update(off, Some(fifo.push(e))),
        None => side.update(off, Some(Seq::<Entry>::empty().push(e))),
    }
}

impl OrderBook {
    /// The resting quantity already at the level where a limit order would
    /// rest; zero when that slot is vacant or the price is outside the
    /// window.
    pub open spec fn same_side_level_total(&self, side: Side, price: u64) -> int {
        let base = self.spec_base_price();
        if side == Side::Buy {
            if price_admissible(base, side, price) && self.bids()[spec_offset(base, side, price)]
                is Some {
                sum_qty(self.bids()[spec_offset(base, side, price)]->Some_0)
            } else {
                0
            }
        } else {
            if price_admissible(base, side, price) && self.asks()[spec_offset(base, side, price)]
                is Some {
                sum_qty(self.asks()[spec_offset(base, side, price)]->Some_0)
            } else {
                0
            }
        }
    }

    /// Rescan the swept side's best price and recount live orders, after a
    /// sweep left those caches stale.
    fn refresh_after_sweep(&mut self, ask_swept: bool)
        requires
            old(self).wf_core(),
            ask_swept ==> best_ok(old(self).best_bid_idx, old(self).buy_levels@),
            !ask_swept ==> best_ok(old(self).best_ask_idx, old(self).sell_levels@),
        ensures
            final(self).wf(),
            final(self).bids() == old(self).bids(),
            final(self).asks() == old(self).asks(),
            forall|id: u64| final(self).live_id(id) == old(self).live_id(id),
            final(self).spec_matched() == old(self).spec_matched(),
            final(self).spec_processed() == old(self).spec_processed(),
            final(self).spec_base_price() == old(self).spec_base_price(),
            final(self).spec_symbol() == old(self).spec_symbol(),
            final(self).spec_capacity() == old(self).spec_capacity(),
            final(self).spec_available() == old(self).spec_available(),
            final(self).spec_order_count() as int == old(self).spec_capacity() - old(
                self,
            ).spec_available(),
    {
        if ask_swept {
            self.best_ask_idx = self.find_best_ask_idx();
        } else {
            self.best_bid_idx = self.find_best_bid_idx();
        }
        let total = self.order_pool.total_capacity();
        let avail = self.order_pool.available_capacity();
        self.order_count = total - avail;
    }

    /// Admit an order. A market order crosses against the opposite side and
    /// any remainder is discarded; a limit order crosses while its price
    /// allows and any remainder rests at its price level in time priority.
    /// Executions are returned best price first, FIFO within a level, each
    /// at the resting order's price and quantity crossed.
    #[verifier::rlimit(100)]
    pub fn add_order(&mut self, order: Order) -> (r: Result<Vec<Execution>, BookError>)
        requires
            old(self).wf(),
            order.order_id < usize::MAX as u64,
            old(self).spec_processed() < u64::MAX,
            order.kind == OrderType::Market ==> old(self).spec_matched() + order.quantity
                <= u64::MAX,
            order.kind == OrderType::Limit ==> old(self).spec_matched() + 2 * order.quantity
                <= u64::MAX,
            order.kind == OrderType::Limit ==> old(self).same_side_level_total(
                order.side,
                order.price,
            ) + order.quantity <= u64::MAX,
        ensures
            final(self).wf(),
            final(self).spec_base_price() == old(self).spec_base_price(),
            final(self).spec_symbol() == old(self).spec_symbol(),
            final(self).spec_capacity() == old(self).spec_capacity(),
            old(self).live_id(order.order_id) ==> {
                &&& r == Err::<Vec<Execution>, BookError>(BookError::DuplicateId)
                &&& final(self).bids() == old(self).bids()
                &&& final(self).asks() == old(self).asks()
                &&& forall|id: u64| final(self).live_id(id) == old(self).live_id(id)
                &&& final(self).spec_matched() == old(self).spec_matched()
                &&& final(self).spec_processed() == old(self).spec_processed()
                &&& final(self).spec_available() == old(self).spec_available()
                &&& final(self).spec_order_count() == old(self).spec_order_count()
            },
            !old(self).live_id(order.order_id) ==> ({
                let base = old(self).spec_base_price();
                let is_buy = order.side == Side::Buy;
                let opp0 = if is_buy { old(self).asks() } else { old(self).bids() };
                let same0 = if is_buy { old(self).bids() } else { old(self).asks() };
                let stop = spec_stop(base, order.side, order.kind, order.price);
                let s = sweep_levels(opp0, 0, stop, order.quantity as int);
                let rem = order.quantity - s.taken;
                let avail_after = old(self).spec_available() + (side_orders(opp0) - side_orders(
                    s.side,
                ));
                &&& final(self).spec_processed() == old(self).spec_processed() + 1
                &&& 0 <= s.taken <= order.quantity
                &&& (if is_buy {
                    final(self).asks() == s.side
                } else {
                    final(self).bids() == s.side
                })
                &&& (order.kind == OrderType::Market ==> {
                    &&& r is Ok
                    &&& sweep_execs_match(r->Ok_0@, s.fills, base, is_buy)
                    &&& (if is_buy {
                        final(self).bids() == old(self).bids()
                    } else {
                        final(self).asks() == old(self).asks()
                    })
                    &&& final(self).spec_matched() as int == old(self).spec_matched() + s.taken
                    &&& forall|id: u64| final(self).live_id(id) ==> old(self).live_id(id)
                    &&& !final(self).live_id(order.order_id)
                    &&& final(self).spec_available() == avail_after
                })
                &&& (order.kind == OrderType::Limit ==> {
                    &&& (rem == 0 ==> {
                        &&& r is Ok
                        &&& sweep_execs_match(r->Ok_0@, s.fills, base, is_buy)
                        &&& (if is_buy {
                            final(self).bids() == old(self).bids()
                        } else {
                            final(self).asks() == old(self).asks()
                        })
                        &&& final(self).spec_matched() as int == old(self).spec_matched() + 2
                            * s.taken
                        &&& forall|id: u64| final(self).live_id(id) ==> old(self).live_id(id)
                        &&& !final(self).live_id(order.order_id)
                        &&& final(self).spec_available() == avail_after
                    })
                    &&& (rem > 0 && !price_admissible(base, order.side, order.price) ==> {
                        &&& r == Err::<Vec<Execution>, BookError>(BookError::PriceOutOfRange)
                        &&& (if is_buy {
                            final(self).bids() == old(self).bids()
                        } else {
                            final(self).asks() == old(self).asks()
                        })
                        &&& final(self).spec_matched() as int == old(self).spec_matched()
                            + s.taken
                        &&& forall|id: u64| final(self).live_id(id) ==> old(self).live_id(id)
                        &&& !final(self).live_id(order.order_id)
                        &&& final(self).spec_available() == avail_after
                    })
                    &&& (rem > 0 && price_admissible(base, order.side, order.price)
                        && avail_after == 0 ==> {
                        &&& r == Err::<Vec<Execution>, BookError>(BookError::PoolFull)
                        &&& (if is_buy {
                            final(self).bids() == old(self).bids()
                        } else {
                            final(self).asks() == old(self).asks()
                        })
                        &&& final(self).spec_matched() as int == old(self).spec_matched()
                            + s.taken
                        &&& forall|id: u64| final(self).live_id(id) ==> old(self).live_id(id)
                        &&& !final(self).live_id(order.order_id)
                        &&& final(self).spec_available() == avail_after
                    })
                    &&& (rem > 0 && price_admissible(base, order.side, order.price)
                        && avail_after > 0 ==> {
                        &&& r is Ok
                        &&& sweep_execs_match(r->Ok_0@, s.fills, base, is_buy)
                        &&& (if is_buy {
                            final(self).bids() == rest_at(
                                same0,
                                spec_offset(base, order.side, order.price),
                                Entry { id: order.order_id, qty: rem as int },
                            )
                        } else {
                            final(self).asks() == rest_at(
                                same0,
                                spec_offset(base, order.side, order.price),
                                Entry { id: order.order_id, qty: rem as int },
                            )
                        })
                        &&& final(self).spec_matched() as int == old(self).spec_matched() + 2
                            * s.taken
                        &&& final(self).live_id(order.order_id)
                        &&& forall|id: u64|
                            id != order.order_id ==> (final(self).live_id(id) ==> old(
                                self,
                            ).live_id(id))
                        &&& final(self).spec_available() == avail_after - 1
                    })
                })
            }),
    {
        // Widen the id index so the order id can be used as a direct index.
        if order.order_id >= self.order_id_to_index.len() as u64 {
            if order.order_id > self.max_order_id {
                self.max_order_id = order.order_id;
            }
            while self.order_id_to_index.len() as u64 <= order.order_id
                invariant
                    self.wf(),
                    order.order_id < usize::MAX as u64,
                    self.order_pool.slots() == old(self).order_pool.slots(),
                    self.order_pool.free_list() == old(self).order_pool.free_list(),
                    self.buy_levels@ == old(self).buy_levels@,
                    self.sell_levels@ == old(self).sell_levels@,
                    self.symbol@ == old(self).symbol@,
                    self.base_price == old(self).base_price,
                    self.tick_size == old(self).tick_size,
                    self.best_bid_idx == old(self).best_bid_idx,
                    self.best_ask_idx == old(self).best_ask_idx,
                    self.order_count == old(self).order_count,
                    self.total_orders_processed == old(self).total_orders_processed,
                    self.total_quantity_matched == old(self).total_quantity_matched,
                    self.order_id_to_index@.len() >= old(self).order_id_to_index@.len(),
                    forall|id: int|
                        0 <= id < old(self).order_id_to_index@.len() ==> self.order_id_to_index@[id]
                            == old(self).order_id_to_index@[id],
                    forall|id: int|
                        old(self).order_id_to_index@.len() <= id < self.order_id_to_index@.len()
                            ==> self.order_id_to_index@[id] is None,
                decreases order.order_id as int + 1 - self.order_id_to_index@.len(),
            {
                let ghost idm_pre = self.order_id_to_index@;
                self.order_id_to_index.push(None);
                proof {
                    lemma_idm_extend(
                        self.buy_levels@,
                        self.sell_levels@,
                        self.order_pool.slots(),
                        idm_pre,
                        self.base_price,
                    );
                    assert(self.order_id_to_index@ == idm_pre.push(None::<usize>));
                }
            }
        }
        proof {
            assert(self.bids() == old(self).bids());
            assert(self.asks() == old(self).asks());
            assert(forall|id: u64| self.live_id(id) == old(self).live_id(id));
        }

        if self.order_id_to_index[order.order_id as usize].is_some() {
            return Err(BookError::DuplicateId);
        }

        self.total_orders_processed = self.total_orders_processed + 1;

        let is_buy = match order.side {
            Side::Buy => true,
            Side::Sell => false,
        };
        let is_market = order.kind == OrderType::Market;

        let stop: usize = if is_market {
            PRICE_LEVELS
        } else if is_buy {
            if order.price < self.base_price {
                0
            } else {
                let d = order.price - self.base_price;
                if d >= PRICE_LEVELS as u64 {
                    PRICE_LEVELS
                } else {
                    (d + 1) as usize
                }
            }
        } else {
            if order.price > self.base_price {
                0
            } else {
                let d = self.base_price - order.price;
                if d >= PRICE_LEVELS as u64 {
                    PRICE_LEVELS
                } else {
                    (d + 1) as usize
                }
            }
        };
        proof {
            assert(stop as int == spec_stop(
                old(self).spec_base_price(),
                order.side,
                order.kind,
                order.price,
            ));
            assert(self.wf_core());
        }
        let ghost mid = *self;
        proof {
            assert(forall|id: u64| mid.live_id(id) == old(self).live_id(id));
            assert(!mid.live_id(order.order_id));
        }
        let swept = self.sweep_opposite(is_buy, stop, order.quantity);
        let ghost aft_sweep = *self;
        let mut execs = swept.0;
        let rem = swept.1;
        let ghost opp0 = if is_buy { old(self).asks() } else { old(self).bids() };
        let ghost s = sweep_levels(opp0, 0, stop as int, order.quantity as int);
        proof {
            assert((if is_buy { mid.asks() } else { mid.bids() }) == opp0);
            lemma_side_positive_of_ok(
                mid.swept_levels(is_buy),
                mid.order_pool.slots(),
                mid.order_id_to_index@,
                mid.base_price,
                is_buy,
            );
            lemma_sweep_basic(opp0, 0, stop as int, order.quantity as int);
        }

        if is_market {
            self.refresh_after_sweep(is_buy);
            proof {
                assert forall|id: u64| #[trigger] self.live_id(id) implies old(self).live_id(
                    id,
                ) by {
                    assert(aft_sweep.live_id(id));
                    assert(mid.live_id(id));
                }
                assert(!self.live_id(order.order_id));
            }
            return Ok(execs);
        }

        if rem > 0 {
            let off_opt = if is_buy {
                self.buy_price_to_idx(order.price)
            } else {
                self.sell_price_to_idx(order.price)
            };
            let off = match off_opt {
                Some(off) => off,
                None => {
                    self.refresh_after_sweep(is_buy);
                    proof {
                        assert forall|id: u64| #[trigger] self.live_id(id) implies old(
                            self,
                        ).live_id(id) by {
                            assert(aft_sweep.live_id(id));
                            assert(mid.live_id(id));
                        }
                        assert(!self.live_id(order.order_id));
                    }
                    return Err(BookError::PriceOutOfRange);
                },
            };
            if self.order_pool.available_capacity() == 0 {
                self.refresh_after_sweep(is_buy);
                proof {
                    assert forall|id: u64| #[trigger] self.live_id(id) implies old(self).live_id(
                        id,
                    ) by {
                        assert(aft_sweep.live_id(id));
                        assert(mid.live_id(id));
                    }
                    assert(!self.live_id(order.order_id));
                }
                return Err(BookError::PoolFull);
            }
            let _slot_count = self.order_pool.total_capacity();
            let ghost buy_b = self.buy_levels@;
            let ghost sell_b = self.sell_levels@;
            let ghost slots_b = self.order_pool.slots();
            let ghost idm_b = self.order_id_to_index@;
            let resting = Order {
                order_id: order.order_id,
                price: order.price,
                quantity: rem,
                timestamp: order.timestamp,
                side: order.side,
                kind: order.kind,
            };
            let h = match self.order_pool.allocate(resting) {
                Some(h) => h,
                None => unreached(),
            };
            let lvl_opt = if is_buy {
                take_level(&mut self.buy_levels, off)
            } else {
                take_level(&mut self.sell_levels, off)
            };
            let ghost had_level = lvl_opt is Some;
            let mut level = match lvl_opt {
                Some(l) => l,
                None => PriceLevel::new(order.price, DEFAULT_ORDERS_PER_LEVEL),
            };
            proof {
                if had_level {
                    assert(level_ok(
                        (if is_buy { buy_b } else { sell_b })[off as int]->Some_0,
                        slots_b,
                        idm_b,
                        level_price(self.base_price, !is_buy, off as int) as u64,
                        order.side,
                    ));
                    assert(level.total_quantity as int == old(self).same_side_level_total(
                        order.side,
                        order.price,
                    ));
                }
            }
            let _ok = level.add_order(h, rem);
            let ghost lvl_after = level;
            if is_buy {
                put_level(&mut self.buy_levels, off, Some(level));
            } else {
                put_level(&mut self.sell_levels, off, Some(level));
            }
            self.order_id_to_index.set(order.order_id as usize, Some(h));
            if is_buy {
                let improve = match self.best_bid_idx {
                    Some(b) => off < b,
                    None => true,
                };
                if improve {
                    self.best_bid_idx = Some(off);
                }
            } else {
                let improve = match self.best_ask_idx {
                    Some(b) => off < b,
                    None => true,
                };
                if improve {
                    self.best_ask_idx = Some(off);
                }
            }
            proof {
                assert(!mid.live_id(order.order_id));
                assert(!old(self).live_id(order.order_id));
                assert(idm_b.len() > order.order_id as int);
                assert(idm_b[order.order_id as int] is None) by {
                    if idm_b[order.order_id as int] is Some {
                        assert(mid.live_id(order.order_id));
                    }
                }
                assert(self.swept_levels(!is_buy) =~= (if is_buy { buy_b } else { sell_b }).update(
                    off as int,
                    Some(lvl_after),
                ));
                assert(self.order_id_to_index@ =~= idm_b.update(
                    order.order_id as int,
                    Some(h),
                ));
                lemma_restore_after_rest(
                    buy_b,
                    sell_b,
                    self.buy_levels@,
                    self.sell_levels@,
                    slots_b,
                    self.order_pool.slots(),
                    idm_b,
                    self.order_id_to_index@,
                    self.base_price,
                    !is_buy,
                    off as int,
                    h,
                    resting,
                    lvl_after,
                );
                // The resting side's cache still names the smallest
                // occupied offset.
                if is_buy {
                    assert(best_ok(self.best_bid_idx, self.buy_levels@)) by {
                        match mid.best_bid_idx {
                            Some(b) => {
                                if off < b {
                                    assert(self.best_bid_idx == Some(off));
                                } else {
                                    assert(self.buy_levels@[b as int] is Some);
                                }
                            },
                            None => {
                                assert(self.best_bid_idx == Some(off));
                            },
                        }
                    }
                } else {
                    assert(best_ok(self.best_ask_idx, self.sell_levels@)) by {
                        match mid.best_ask_idx {
                            Some(b) => {
                                if off < b {
                                    assert(self.best_ask_idx == Some(off));
                                } else {
                                    assert(self.sell_levels@[b as int] is Some);
                                }
                            },
                            None => {
                                assert(self.best_ask_idx == Some(off));
                            },
                        }
                    }
                }
            }
        }

        // An aggressor's crossed quantity counts into the running total a
        // second time when the admit succeeds, once per execution.
        let taken = order.quantity - rem;
        self.total_quantity_matched = self.total_quantity_matched + taken;
        self.refresh_after_sweep(is_buy);
        proof {
            assert forall|id: u64|
                id != order.order_id && #[trigger] self.live_id(id) implies old(self).live_id(
                id,
            ) by {
                assert(aft_sweep.live_id(id));
                assert(mid.live_id(id));
            }
            if rem == 0 {
                assert(!self.live_id(order.order_id)) by {
                    if self.live_id(order.order_id) {
                        assert(aft_sweep.live_id(order.order_id));
                        assert(mid.live_id(order.order_id));
                    }
                }
            }
        }
        Ok(execs)
    }
}

fn first_occupied_level(levels: &Vec<Option<PriceLevel>>) -> (r: Option<usize>)
    ensures
        best_ok(r, levels@),
{
    let n = levels.len();
    let mut i: usize = 0;
    while i < n
        invariant
            n == levels@.len(),
            0 <= i <= n,
            forall|j: int| 0 <= j < i ==> (#[trigger] levels@[j]) is None,
        decreases n - i,
    {
        if levels[i].is_some() {
            return Some(i);
        }
        i = i + 1;
    }
    None
}

/// Occupancy carries over from the stored levels to their abstraction: the
/// two sequences have the same occupied offsets, so they share their first
/// occupied offset.
pub proof fn lemma_first_occupied_entries(
    levels: Seq<Option<PriceLevel>>,
    slots: Seq<Option<Order>>,
    from: int,
)
    requires
        0 <= from,
    ensures
        match first_occupied(side_entries(levels, slots), from) {
            Some(b) => from <= b < levels.len() && levels[b] is Some && forall|i: int|
                from <= i < b ==> (#[trigger] levels[i]) is None,
            None => forall|i: int| from <= i < levels.len() ==> (#[trigger] levels[i]) is None,
        },
    decreases levels.len() - from,
{
    if from < 0 || from >= levels.len() {
    } else if levels[from] is Some {
    } else {
        lemma_first_occupied_entries(levels, slots, from + 1);
    }
}

/// Conditions on one live id index entry: the handle holds a live limit
/// order with this id, resting in the level its side and price select.
pub open spec fn id_entry_ok(
    id: int,
    h: usize,
    slots: Seq<Option<Order>>,
    buy_levels: Seq<Option<PriceLevel>>,
    sell_levels: Seq<Option<PriceLevel>>,
    base: u64,
) -> bool {
    &&& (h as int) < slots.len()
    &&& slots[h as int] is Some
    &&& {
        let o = slots[h as int]->Some_0;
        &&& o.order_id == id
        &&& o.quantity > 0
        &&& o.kind == OrderType::Limit
        &&& match o.side {
            Side::Buy => {
                let off = base - o.price;
                &&& o.price < base
                &&& 0 < off < PRICE_LEVELS as int
                &&& buy_levels[off] is Some
                &&& buy_levels[off]->Some_0.order_indices@.contains(h)
            },
            Side::Sell => {
                let off = o.price - base;
                &&& o.price >= base
                &&& 0 <= off < PRICE_LEVELS as int
                &&& sell_levels[off] is Some
                &&& sell_levels[off]->Some_0.order_indices@.contains(h)
            },
        }
    }
}


/// Law: the aggressor always receives the resting side's price. Every
/// execution of a sweep bounded by a limit price happens at its level's
/// price, which is no worse for the aggressor than the limit: at or below
/// a buyer's limit, at or above a seller's.
pub proof fn lemma_price_improvement(
    opp: Seq<Option<Seq<Entry>>>,
    base: u64,
    side: Side,
    price: u64,
    qty: int,
    j: int,
)
    requires
        side_positive(opp),
        opp.len() == PRICE_LEVELS,
        qty >= 0,
        PRICE_LEVELS as u64 <= base <= u64::MAX - PRICE_LEVELS as u64,
        0 <= j < sweep_levels(
            opp,
            0,
            spec_stop(base, side, OrderType::Limit, price),
            qty,
        ).fills.len(),
    ensures
        ({
            let s = sweep_levels(opp, 0, spec_stop(base, side, OrderType::Limit, price), qty);
            &&& (side == Side::Buy ==> level_price(base, true, s.fills[j].off) <= price)
            &&& (side == Side::Sell ==> level_price(base, false, s.fills[j].off) >= price)
        }),
{
    let stop = spec_stop(base, side, OrderType::Limit, price);
    lemma_sweep_basic(opp, 0, stop, qty);
}

impl OrderBook {
    /// Law: id consistency. Every entry resting in any price level names a
    /// live id, and no id rests in two places: entries at distinct
    /// positions, on either side, carry distinct ids.
    pub proof fn lemma_id_consistency(&self)
        requires
            self.wf(),
        ensures
            forall|off: int, k: int|
                0 <= off < self.bids().len() && self.bids()[off] is Some && 0 <= k < self.bids()[
                    off
                ]->Some_0.len() ==> self.live_id((#[trigger] self.bids()[off]->Some_0[k]).id),
            forall|off: int, k: int|
                0 <= off < self.asks().len() && self.asks()[off] is Some && 0 <= k < self.asks()[
                    off
                ]->Some_0.len() ==> self.live_id((#[trigger] self.asks()[off]->Some_0[k]).id),
            forall|o1: int, k1: int, o2: int, k2: int|
                0 <= o1 < self.bids().len() && self.bids()[o1] is Some && 0 <= k1 < self.bids()[
                    o1
                ]->Some_0.len() && 0 <= o2 < self.bids().len() && self.bids()[o2] is Some && 0
                    <= k2 < self.bids()[o2]->Some_0.len() && (o1 != o2 || k1 != k2) ==> (
                #[trigger] self.bids()[o1]->Some_0[k1]).id != (
                #[trigger] self.bids()[o2]->Some_0[k2]).id,
            forall|o1: int, k1: int, o2: int, k2: int|
                0 <= o1 < self.asks().len() && self.asks()[o1] is Some && 0 <= k1 < self.asks()[
                    o1
                ]->Some_0.len() && 0 <= o2 < self.asks().len() && self.asks()[o2] is Some && 0
                    <= k2 < self.asks()[o2]->Some_0.len() && (o1 != o2 || k1 != k2) ==> (
                #[trigger] self.asks()[o1]->Some_0[k1]).id != (
                #[trigger] self.asks()[o2]->Some_0[k2]).id,
            forall|o1: int, k1: int, o2: int, k2: int|
                0 <= o1 < self.bids().len() && self.bids()[o1] is Some && 0 <= k1 < self.bids()[
                    o1
                ]->Some_0.len() && 0 <= o2 < self.asks().len() && self.asks()[o2] is Some && 0
                    <= k2 < self.asks()[o2]->Some_0.len() ==> (
                #[trigger] self.bids()[o1]->Some_0[k1]).id != (
                #[trigger] self.asks()[o2]->Some_0[k2]).id,
    {
        let slots = self.order_pool.slots();
        let idm = self.order_id_to_index@;
        let base = self.base_price;
        assert forall|off: int, k: int|
            0 <= off < self.bids().len() && self.bids()[off] is Some && 0 <= k < self.bids()[
                off
            ]->Some_0.len() implies self.live_id(
            (#[trigger] self.bids()[off]->Some_0[k]).id,
        ) by {
            let lv = self.buy_levels@[off]->Some_0;
            assert(level_ok(lv, slots, idm, level_price(base, false, off) as u64, Side::Buy));
            assert(handle_ok(
                lv.order_indices@[k],
                slots,
                idm,
                level_price(base, false, off) as u64,
                Side::Buy,
            ));
        }
        assert forall|off: int, k: int|
            0 <= off < self.asks().len() && self.asks()[off] is Some && 0 <= k < self.asks()[
                off
            ]->Some_0.len() implies self.live_id(
            (#[trigger] self.asks()[off]->Some_0[k]).id,
        ) by {
            let lv = self.sell_levels@[off]->Some_0;
            assert(level_ok(lv, slots, idm, level_price(base, true, off) as u64, Side::Sell));
            assert(handle_ok(
                lv.order_indices@[k],
                slots,
                idm,
                level_price(base, true, off) as u64,
                Side::Sell,
            ));
        }
        assert forall|o1: int, k1: int, o2: int, k2: int|
            0 <= o1 < self.bids().len() && self.bids()[o1] is Some && 0 <= k1 < self.bids()[
                o1
            ]->Some_0.len() && 0 <= o2 < self.bids().len() && self.bids()[o2] is Some && 0 <= k2
                < self.bids()[o2]->Some_0.len() && (o1 != o2 || k1 != k2) implies (
        #[trigger] self.bids()[o1]->Some_0[k1]).id != (
        #[trigger] self.bids()[o2]->Some_0[k2]).id by {
            let l1 = self.buy_levels@[o1]->Some_0;
            let l2 = self.buy_levels@[o2]->Some_0;
            let h1 = l1.order_indices@[k1];
            let h2 = l2.order_indices@[k2];
            assert(level_ok(l1, slots, idm, level_price(base, false, o1) as u64, Side::Buy));
            assert(level_ok(l2, slots, idm, level_price(base, false, o2) as u64, Side::Buy));
            assert(handle_ok(h1, slots, idm, level_price(base, false, o1) as u64, Side::Buy));
            assert(handle_ok(h2, slots, idm, level_price(base, false, o2) as u64, Side::Buy));
            if slots[h1 as int]->Some_0.order_id == slots[h2 as int]->Some_0.order_id {
                assert(idm[slots[h1 as int]->Some_0.order_id as int] == Some(h1));
                assert(idm[slots[h2 as int]->Some_0.order_id as int] == Some(h2));
                assert(h1 == h2);
                if o1 != o2 {
                    assert(slots[h1 as int]->Some_0.price == level_price(base, false, o1) as u64);
                    assert(slots[h2 as int]->Some_0.price == level_price(base, false, o2) as u64);
                    assert(false);
                } else {
                    assert(false);
                }
            }
        }
        assert forall|o1: int, k1: int, o2: int, k2: int|
            0 <= o1 < self.asks().len() && self.asks()[o1] is Some && 0 <= k1 < self.asks()[
                o1
            ]->Some_0.len() && 0 <= o2 < self.asks().len() && self.asks()[o2] is Some && 0 <= k2
                < self.asks()[o2]->Some_0.len() && (o1 != o2 || k1 != k2) implies (
        #[trigger] self.asks()[o1]->Some_0[k1]).id != (
        #[trigger] self.asks()[o2]->Some_0[k2]).id by {
            let l1 = self.sell_levels@[o1]->Some_0;
            let l2 = self.sell_levels@[o2]->Some_0;
            let h1 = l1.order_indices@[k1];
            let h2 = l2.order_indices@[k2];
            assert(level_ok(l1, slots, idm, level_price(base, true, o1) as u64, Side::Sell));
            assert(level_ok(l2, slots, idm, level_price(base, true, o2) as u64, Side::Sell));
            assert(handle_ok(h1, slots, idm, level_price(base, true, o1) as u64, Side::Sell));
            assert(handle_ok(h2, slots, idm, level_price(base, true, o2) as u64, Side::Sell));
            if slots[h1 as int]->Some_0.order_id == slots[h2 as int]->Some_0.order_id {
                assert(idm[slots[h1 as int]->Some_0.order_id as int] == Some(h1));
                assert(idm[slots[h2 as int]->Some_0.order_id as int] == Some(h2));
                assert(h1 == h2);
                if o1 != o2 {
                    assert(slots[h1 as int]->Some_0.price == level_price(base, true, o1) as u64);
                    assert(slots[h2 as int]->Some_0.price == level_price(base, true, o2) as u64);
                    assert(false);
                } else {
                    assert(false);
                }
            }
        }
        assert forall|o1: int, k1: int, o2: int, k2: int|
            0 <= o1 < self.bids().len() && self.bids()[o1] is Some && 0 <= k1 < self.bids()[
                o1
            ]->Some_0.len() && 0 <= o2 < self.asks().len() && self.asks()[o2] is Some && 0 <= k2
                < self.asks()[o2]->Some_0.len() implies (
        #[trigger] self.bids()[o1]->Some_0[k1]).id != (
        #[trigger] self.asks()[o2]->Some_0[k2]).id by {
            let l1 = self.buy_levels@[o1]->Some_0;
            let l2 = self.sell_levels@[o2]->Some_0;
            let h1 = l1.order_indices@[k1];
            let h2 = l2.order_indices@[k2];
            assert(level_ok(l1, slots, idm, level_price(base, false, o1) as u64, Side::Buy));
            assert(level_ok(l2, slots, idm, level_price(base, true, o2) as u64, Side::Sell));
            assert(handle_ok(h1, slots, idm, level_price(base, false, o1) as u64, Side::Buy));
            assert(handle_ok(h2, slots, idm, level_price(base, true, o2) as u64, Side::Sell));
            if slots[h1 as int]->Some_0.order_id == slots[h2 as int]->Some_0.order_id {
                assert(idm[slots[h1 as int]->Some_0.order_id as int] == Some(h1));
                assert(idm[slots[h2 as int]->Some_0.order_id as int] == Some(h2));
                assert(h1 == h2);
                assert(slots[h1 as int]->Some_0.side == Side::Buy);
                assert(slots[h2 as int]->Some_0.side == Side::Sell);
                assert(false);
            }
        }
    }

    /// Law: quantity sums. The aggregate quantity a level reports equals
    /// the sum of the live quantities of the orders resting in its FIFO.
    pub proof fn lemma_quantity_sum(&self)
        requires
            self.wf(),
        ensures
            forall|off: int|
                0 <= off < self.bids().len() && (#[trigger] self.bids()[off]) is Some
                    ==> self.bid_level_total(off) as int == sum_qty(self.bids()[off]->Some_0),
            forall|off: int|
                0 <= off < self.asks().len() && (#[trigger] self.asks()[off]) is Some
                    ==> self.ask_level_total(off) as int == sum_qty(self.asks()[off]->Some_0),
    {
        let slots = self.order_pool.slots();
        let idm = self.order_id_to_index@;
        let base = self.base_price;
        assert forall|off: int|
            0 <= off < self.bids().len() && (#[trigger] self.bids()[off]) is Some implies self
            .bid_level_total(off) as int == sum_qty(self.bids()[off]->Some_0) by {
            let lv = self.buy_levels@[off]->Some_0;
            assert(level_ok(lv, slots, idm, level_price(base, false, off) as u64, Side::Buy));
        }
        assert forall|off: int|
            0 <= off < self.asks().len() && (#[trigger] self.asks()[off]) is Some implies self
            .ask_level_total(off) as int == sum_qty(self.asks()[off]->Some_0) by {
            let lv = self.sell_levels@[off]->Some_0;
            assert(level_ok(lv, slots, idm, level_price(base, true, off) as u64, Side::Sell));
        }
    }

    /// Law: best-price cache correctness. The cached best offsets are
    /// exactly the smallest occupied offsets of their sides, or absent when
    /// a side is empty.
    pub proof fn lemma_best_price_cache(&self)
        requires
            self.wf(),
        ensures
            self.cached_bid_off() is Some <==> first_occupied(self.bids(), 0) is Some,
            self.cached_bid_off() is Some ==> self.cached_bid_off()->Some_0 as int
                == first_occupied(self.bids(), 0)->Some_0,
            self.cached_ask_off() is Some <==> first_occupied(self.asks(), 0) is Some,
            self.cached_ask_off() is Some ==> self.cached_ask_off()->Some_0 as int
                == first_occupied(self.asks(), 0)->Some_0,
    {
        lemma_first_occupied_entries(self.buy_levels@, self.order_pool.slots(), 0);
        lemma_first_occupied_entries(self.sell_levels@, self.order_pool.slots(), 0);
    }

    /// Law: the book is never crossed. Whenever both bests exist, the best
    /// bid price is strictly below the best ask price: bids rest strictly
    /// below the base price and asks at or above it.
    pub proof fn lemma_uncrossed(&self)
        requires
            self.wf(),
        ensures
            match (self.spec_best_bid(), self.spec_best_ask()) {
                (Some(bid), Some(ask)) => bid < ask,
                _ => true,
            },
    {
        lemma_first_occupied_entries(self.buy_levels@, self.order_pool.slots(), 0);
        lemma_first_occupied_entries(self.sell_levels@, self.order_pool.slots(), 0);
    }
}

/// Law: a rest followed by its cancel restores the side. Admitting an
/// order that produced no executions appends its entry at the tail of its
/// level; cancelling that same entry gives back exactly the side that was
/// there before, so depth and bests return to the pre-admit snapshot.
pub proof fn lemma_rest_then_cancel(side: Seq<Option<Seq<Entry>>>, off: int, e: Entry)
    requires
        0 <= off < side.len(),
        side[off] is Some ==> side[off]->Some_0.len() > 0,
    ensures
        ({
            let rested = rest_at(side, off, e);
            let k = rested[off]->Some_0.len() - 1;
            &&& rested[off] is Some
            &&& rested[off]->Some_0[k] == e
            &&& remove_entry_at(rested, off, k) == side
        }),
{
    let rested = rest_at(side, off, e);
    let k = rested[off]->Some_0.len() - 1;
    match side[off] {
        Some(fifo) => {
            assert(rested[off]->Some_0 == fifo.push(e));
            assert(fifo.push(e).remove(k) =~= fifo);
            assert(remove_entry_at(rested, off, k) =~= side);
        },
        None => {
            assert(rested[off]->Some_0 == Seq::<Entry>::empty().push(e));
            assert(remove_entry_at(rested, off, k) =~= side);
        },
    }
}

} // verus!
