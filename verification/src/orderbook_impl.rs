use vstd::prelude::*;

use std::collections::HashMap;
use std::collections::VecDeque;

use crate::models::{OrderId, Price, Quantity};
use crate::order::{Order, OrderType, Side, Status};
use crate::price_level::{
    active_count, active_ids, lemma_active_clear, lemma_active_contains, lemma_active_distinct,
    lemma_active_from_slot, OrderEntry, PriceLevel,
};
use crate::runtime;

verus! {

broadcast use
    vstd::std_specs::hash::group_hash_axioms,
    vstd::std_specs::vecdeque::group_vec_dequeue_axioms;

/// An immutable record of one match: the two orders involved, the
/// price the resting side set, and the quantity that changed hands.
#[derive(Clone, Copy, Debug, PartialEq, Eq, Structural)]
pub struct Trade {
    pub trade_id: OrderId,
    pub bid_order_id: OrderId,
    pub ask_order_id: OrderId,
    pub price: Price,
    pub quantity: Quantity,
    pub timestamp: i64,
}

/// Everything a book operation can fail with. All variants are
/// recoverable by the caller; none leaves the book changed.
#[derive(Clone, Copy, Debug, PartialEq, Eq, Structural)]
pub enum OrderBookError {
    OrderNotFound { order_id: OrderId },
    InvalidPrice { price: Price },
    InvalidQuantity { quantity: Quantity },
    OrderAlreadyExists { order_id: OrderId },
    PriceLevelNotFound { price: Price },
    PriceLevelRefNotFound { price: Price },
}

/// A reference from a side map into the price-level arena.
#[derive(Clone, Copy, Debug, PartialEq, Eq, Structural)]
pub struct PriceLevelRef {
    pub index: usize,
    pub price: Price,
}

/// The book: two price-ordered side maps of references into an
/// index-addressed arena of price levels, a global order table that
/// owns the authoritative order values, and a queue of freed arena
/// indices awaiting reuse.
pub struct OrderBook {
    pub bids: Vec<PriceLevelRef>,
    pub asks: Vec<PriceLevelRef>,
    pub orders: HashMap<OrderId, OrderEntry>,
    pub price_levels: Vec<Option<PriceLevel>>,
    pub free_indices: VecDeque<usize>,
    pub level_capacity: usize,
}

/// The side a given order matches against.
pub open spec fn opp(side: Side) -> Side {
    match side {
        Side::Buy => Side::Sell,
        Side::Sell => Side::Buy,
    }
}

/// Whether a limit price can trade against a level at `level_price`.
pub open spec fn crosses(side: Side, order_price: Price, level_price: Price) -> bool {
    match side {
        Side::Buy => order_price >= level_price,
        Side::Sell => order_price <= level_price,
    }
}

/// Whether an order may trade against a level at `level_price`: a
/// market order always may, anything else only when its limit
/// crosses.
pub open spec fn marketable(order: Order, level_price: Price) -> bool {
    order.order_type == OrderType::MarketOrder || crosses(order.side, order.price, level_price)
}

/// The resting-side order id of a trade made by `order`.
pub open spec fn resting_id(order: Order, t: Trade) -> OrderId {
    match order.side {
        Side::Buy => t.ask_order_id,
        Side::Sell => t.bid_order_id,
    }
}

/// Whether `a` is closer to the top of `side`'s book than `b`.
pub open spec fn price_better(side: Side, a: Price, b: Price) -> bool {
    match side {
        Side::Buy => a > b,
        Side::Sell => a < b,
    }
}

/// A side map is sorted best-first, strictly, so each price appears
/// at most once.
pub open spec fn refs_sorted(s: Seq<PriceLevelRef>, side: Side) -> bool {
    forall|i: int, j: int|
        0 <= i < j < s.len() ==> price_better(side, s[i].price, s[j].price)
}

/// Sum of the remaining quantities that the order table records for
/// the given ids.
pub open spec fn sum_rem(ids: Seq<OrderId>, m: Map<OrderId, OrderEntry>) -> int
    decreases ids.len(),
{
    if ids.len() == 0 {
        0
    } else {
        sum_rem(ids.drop_last(), m) + m[ids.last()].order.remaining_quantity
    }
}

/// How many active orders one arena slot holds.
pub open spec fn level_total(slot: Option<PriceLevel>) -> int {
    match slot {
        Some(l) => active_count(l.orders@) as int,
        None => 0,
    }
}

/// Total number of active orders across the whole arena.
pub open spec fn total_active(arena: Seq<Option<PriceLevel>>) -> int
    decreases arena.len(),
{
    if arena.len() == 0 {
        0
    } else {
        total_active(arena.drop_last()) + level_total(arena.last())
    }
}

/// Total quantity of a sequence of trades.
pub open spec fn sum_qty(trades: Seq<Trade>) -> int
    decreases trades.len(),
{
    if trades.len() == 0 {
        0
    } else {
        sum_qty(trades.drop_last()) + trades.last().quantity
    }
}

pub proof fn lemma_sum_rem_push(ids: Seq<OrderId>, m: Map<OrderId, OrderEntry>, id: OrderId)
    ensures
        sum_rem(ids.push(id), m) == sum_rem(ids, m) + m[id].order.remaining_quantity,
{
    assert(ids.push(id).drop_last() =~= ids);
}

pub proof fn lemma_sum_rem_remove(ids: Seq<OrderId>, m: Map<OrderId, OrderEntry>, p: int)
    requires
        0 <= p < ids.len(),
    ensures
        sum_rem(ids.remove(p), m) == sum_rem(ids, m) - m[ids[p]].order.remaining_quantity,
    decreases ids.len(),
{
    if p == ids.len() - 1 {
        assert(ids.remove(p) =~= ids.drop_last());
    } else {
        lemma_sum_rem_remove(ids.drop_last(), m, p);
        assert(ids.remove(p).drop_last() =~= ids.drop_last().remove(p));
        assert(ids.remove(p).last() == ids.last());
    }
}

/// Two tables that record the same remaining quantity for every id
/// in the sequence give the same sum.
pub proof fn lemma_sum_rem_congruence(
    ids: Seq<OrderId>,
    m1: Map<OrderId, OrderEntry>,
    m2: Map<OrderId, OrderEntry>,
)
    requires
        forall|p: int|
            0 <= p < ids.len() ==> m1[#[trigger] ids[p]].order.remaining_quantity
                == m2[ids[p]].order.remaining_quantity,
    ensures
        sum_rem(ids, m1) == sum_rem(ids, m2),
    decreases ids.len(),
{
    if ids.len() > 0 {
        lemma_sum_rem_congruence(ids.drop_last(), m1, m2);
    }
}

pub proof fn lemma_sum_rem_nonneg(ids: Seq<OrderId>, m: Map<OrderId, OrderEntry>)
    ensures
        sum_rem(ids, m) >= 0,
    decreases ids.len(),
{
    if ids.len() > 0 {
        lemma_sum_rem_nonneg(ids.drop_last(), m);
    }
}

/// Each id's remaining quantity is no more than the whole sum.
pub proof fn lemma_sum_rem_bound(ids: Seq<OrderId>, m: Map<OrderId, OrderEntry>, p: int)
    requires
        0 <= p < ids.len(),
    ensures
        m[ids[p]].order.remaining_quantity <= sum_rem(ids, m),
{
    lemma_sum_rem_remove(ids, m, p);
    lemma_sum_rem_nonneg(ids.remove(p), m);
}

/// Re-recording one id of a duplicate-free sequence changes the sum
/// by exactly the difference at that id.
pub proof fn lemma_sum_rem_update(
    ids: Seq<OrderId>,
    m: Map<OrderId, OrderEntry>,
    p: int,
    e: OrderEntry,
)
    requires
        0 <= p < ids.len(),
        forall|a: int, b: int| 0 <= a < b < ids.len() ==> ids[a] != ids[b],
    ensures
        sum_rem(ids, m.insert(ids[p], e)) == sum_rem(ids, m)
            - m[ids[p]].order.remaining_quantity + e.order.remaining_quantity,
{
    let m2 = m.insert(ids[p], e);
    lemma_sum_rem_remove(ids, m, p);
    lemma_sum_rem_remove(ids, m2, p);
    assert forall|q: int| 0 <= q < ids.remove(p).len() implies m[#[trigger] ids.remove(p)[q]].order.remaining_quantity
        == m2[ids.remove(p)[q]].order.remaining_quantity by {
        if q < p {
            assert(ids.remove(p)[q] == ids[q]);
        } else {
            assert(ids.remove(p)[q] == ids[q + 1]);
        }
    }
    lemma_sum_rem_congruence(ids.remove(p), m, m2);
}

pub proof fn lemma_total_active_update(arena: Seq<Option<PriceLevel>>, i: int, v: Option<PriceLevel>)
    requires
        0 <= i < arena.len(),
    ensures
        total_active(arena.update(i, v)) == total_active(arena) - level_total(arena[i])
            + level_total(v),
    decreases arena.len(),
{
    if i == arena.len() - 1 {
        assert(arena.update(i, v).drop_last() =~= arena.drop_last());
        assert(arena.update(i, v).last() == v);
    } else {
        lemma_total_active_update(arena.drop_last(), i, v);
        assert(arena.update(i, v).drop_last() =~= arena.drop_last().update(i, v));
        assert(arena.update(i, v).last() == arena.last());
    }
}

pub proof fn lemma_total_active_push(arena: Seq<Option<PriceLevel>>, v: Option<PriceLevel>)
    ensures
        total_active(arena.push(v)) == total_active(arena) + level_total(v),
{
    assert(arena.push(v).drop_last() =~= arena);
}

pub proof fn lemma_total_active_nonneg(arena: Seq<Option<PriceLevel>>)
    ensures
        total_active(arena) >= 0,
    decreases arena.len(),
{
    if arena.len() > 0 {
        lemma_total_active_nonneg(arena.drop_last());
    }
}

/// One live level never holds more active orders than the whole
/// arena.
pub proof fn lemma_level_le_total(arena: Seq<Option<PriceLevel>>, i: int)
    requires
        0 <= i < arena.len(),
    ensures
        level_total(arena[i]) <= total_active(arena),
    decreases arena.len(),
{
    if i == arena.len() - 1 {
        lemma_total_active_nonneg(arena.drop_last());
    } else {
        lemma_level_le_total(arena.drop_last(), i);
        assert(arena.drop_last()[i] == arena[i]);
    }
}

pub proof fn lemma_sum_qty_push(trades: Seq<Trade>, t: Trade)
    ensures
        sum_qty(trades.push(t)) == sum_qty(trades) + t.quantity,
{
    assert(trades.push(t).drop_last() =~= trades);
}

/// A prefix of trades never carries more quantity than the whole
/// sequence.
pub proof fn lemma_sum_qty_take_le(trades: Seq<Trade>, k: int)
    requires
        0 <= k <= trades.len(),
    ensures
        sum_qty(trades.take(k)) <= sum_qty(trades),
    decreases trades.len(),
{
    if k == trades.len() {
        assert(trades.take(k) =~= trades);
    } else {
        lemma_sum_qty_take_le(trades.drop_last(), k);
        assert(trades.drop_last().take(k) =~= trades.take(k));
    }
}

impl Trade {
    /// A trade between the two given orders, stamped with a fresh
    /// identifier and the current time.
    pub fn new(
        bid_order_id: OrderId,
        ask_order_id: OrderId,
        price: Price,
        quantity: Quantity,
    ) -> (r: Self)
        ensures
            r.bid_order_id == bid_order_id,
            r.ask_order_id == ask_order_id,
            r.price == price,
            r.quantity == quantity,
    {
        Trade {
            trade_id: runtime::fresh_id(),
            bid_order_id,
            ask_order_id,
            price,
            quantity,
            timestamp: runtime::now_micros(),
        }
    }
}

impl OrderBook {
    pub open spec fn side_refs(self, side: Side) -> Seq<PriceLevelRef> {
        match side {
            Side::Buy => self.bids@,
            Side::Sell => self.asks@,
        }
    }

    pub open spec fn live(self, i: int) -> bool {
        0 <= i < self.price_levels@.len() && self.price_levels@[i] is Some
    }

    pub open spec fn lvl(self, i: int) -> PriceLevel {
        self.price_levels@[i].unwrap()
    }

    /// A side-map reference points at a live, non-empty level of the
    /// same price.
    pub open spec fn ref_ok(self, r: PriceLevelRef) -> bool {
        &&& self.live(r.index as int)
        &&& self.lvl(r.index as int).price == r.price
        &&& self.lvl(r.index as int).order_count > 0
    }

    /// One side map in good order: sorted best-first, every
    /// reference pointing at a live, non-empty level of its price.
    pub open spec fn wf_side(self, sd: Side) -> bool {
        &&& refs_sorted(self.side_refs(sd), sd)
        &&& forall|k: int|
            0 <= k < self.side_refs(sd).len() ==> self.ref_ok(#[trigger] self.side_refs(sd)[k])
    }

    /// Both side maps in good order, and disjoint in the arena.
    pub open spec fn wf_refs_basic(self) -> bool {
        &&& self.wf_side(Side::Buy)
        &&& self.wf_side(Side::Sell)
        &&& forall|k1: int, k2: int|
            0 <= k1 < self.bids@.len() && 0 <= k2 < self.asks@.len()
                ==> (#[trigger] self.bids@[k1]).index != (#[trigger] self.asks@[k2]).index
    }

    /// An order-table entry is internally consistent and registered
    /// everywhere the book needs it: its level is live at its price,
    /// the slot the entry names holds exactly this id, and the
    /// order's side map carries the level.
    pub open spec fn entry_ok(self, id: OrderId) -> bool {
        let e = self.orders@[id];
        &&& e.order.order_id == id
        &&& e.order.wf()
        &&& e.order.remaining_quantity > 0
        &&& self.live(e.price_level_cursor as int)
        &&& e.order_cursor < self.lvl(e.price_level_cursor as int).orders@.len()
        &&& self.lvl(e.price_level_cursor as int).orders@[e.order_cursor as int] == Some(id)
        &&& e.order.price == self.lvl(e.price_level_cursor as int).price
        &&& self.side_refs(e.order.side).contains(
            PriceLevelRef { index: e.price_level_cursor, price: e.order.price },
        )
    }

    pub open spec fn wf_entries(self) -> bool {
        forall|id: OrderId| #[trigger]
            self.orders@.contains_key(id) ==> self.entry_ok(id)
    }

    /// Every occupied slot of a live level is owned by the matching
    /// order-table entry.
    pub open spec fn slots_ok(self, i: int) -> bool {
        forall|s: int|
            0 <= s < self.lvl(i).orders@.len() && (#[trigger] self.lvl(i).orders@[s]) is Some
                ==> {
                let id = self.lvl(i).orders@[s].unwrap();
                &&& self.orders@.contains_key(id)
                &&& self.orders@[id].price_level_cursor == i
                &&& self.orders@[id].order_cursor == s
            }
    }

    /// A live level's counters are truthful: the count counts its
    /// active slots and the volume is the exact sum of the remaining
    /// quantities of the orders resting there.
    pub open spec fn level_ok(self, i: int) -> bool {
        &&& self.lvl(i).wf()
        &&& self.lvl(i).volume == sum_rem(active_ids(self.lvl(i).orders@), self.orders@)
    }

    pub open spec fn wf_levels(self) -> bool {
        forall|i: int| #[trigger] self.live(i) ==> self.slots_ok(i) && self.level_ok(i)
    }

    /// Freed arena indices are in bounds, point at cleared slots, and
    /// are pairwise distinct.
    pub open spec fn wf_free(self) -> bool {
        &&& forall|f: int|
            0 <= f < self.free_indices@.len() ==> {
                let fi = (#[trigger] self.free_indices@[f]) as int;
                &&& fi < self.price_levels@.len()
                &&& self.price_levels@[fi] is None
            }
        &&& forall|f1: int, f2: int|
            0 <= f1 < f2 < self.free_indices@.len() ==> self.free_indices@[f1]
                != self.free_indices@[f2]
    }

    /// The order table is in one-to-one correspondence with the
    /// active slots of the arena.
    pub open spec fn wf_total(self) -> bool {
        self.orders@.dom().len() == total_active(self.price_levels@)
    }

    /// The book invariant: every reachable state satisfies it.
    pub open spec fn wf(self) -> bool {
        &&& self.wf_refs_basic()
        &&& self.wf_entries()
        &&& self.wf_levels()
        &&& self.wf_free()
        &&& self.wf_total()
    }

    /// Like `wf_side`, except that the level at arena index `i` is
    /// allowed to be empty.
    pub open spec fn wf_side_except(self, sd: Side, i: int) -> bool {
        &&& refs_sorted(self.side_refs(sd), sd)
        &&& forall|k: int|
            0 <= k < self.side_refs(sd).len() ==> {
                let r = #[trigger] self.side_refs(sd)[k];
                &&& self.live(r.index as int)
                &&& self.lvl(r.index as int).price == r.price
                &&& (r.index as int != i ==> self.lvl(r.index as int).order_count > 0)
            }
    }

    /// The book just after the last order left the level at `(side,
    /// price)`, arena index `i`: everything of `wf` holds except
    /// that this one still-referenced level is empty and waits to be
    /// torn down.
    pub open spec fn wf_except_teardown(self, side: Side, price: Price, i: int) -> bool {
        &&& self.wf_side_except(side, i)
        &&& self.wf_side(opp(side))
        &&& forall|k1: int, k2: int|
            0 <= k1 < self.bids@.len() && 0 <= k2 < self.asks@.len()
                ==> (#[trigger] self.bids@[k1]).index != (#[trigger] self.asks@[k2]).index
        &&& self.wf_entries()
        &&& self.wf_levels()
        &&& self.wf_free()
        &&& self.wf_total()
        &&& 0 <= i <= usize::MAX
        &&& self.live(i)
        &&& self.lvl(i).order_count == 0
        &&& self.lvl(i).price == price
        &&& self.side_refs(side).contains(PriceLevelRef { index: i as usize, price })
    }

    /// The resting-side order ids of a sequence of trades, in trade
    /// order.
    pub open spec fn trade_rids(order: Order, trades: Seq<Trade>) -> Seq<OrderId>
        decreases trades.len(),
    {
        if trades.len() == 0 {
            Seq::empty()
        } else {
            OrderBook::trade_rids(order, trades.drop_last()).push(
                resting_id(order, trades.last()),
            )
        }
    }

    /// All resting order ids behind a best-first reference list, as
    /// one sequence: the concatenation of each level's FIFO of
    /// active ids. This is the order price-time priority serves
    /// them in.
    pub open spec fn flat_ids(self, refs: Seq<PriceLevelRef>) -> Seq<OrderId>
        decreases refs.len(),
    {
        if refs.len() == 0 {
            Seq::empty()
        } else {
            active_ids(self.lvl(refs.first().index as int).orders@) + self.flat_ids(
                refs.drop_first(),
            )
        }
    }

    proof fn lemma_trade_rids_push(order: Order, trades: Seq<Trade>, t: Trade)
        ensures
            OrderBook::trade_rids(order, trades.push(t)) == OrderBook::trade_rids(
                order,
                trades,
            ).push(resting_id(order, t)),
    {
        assert(trades.push(t).drop_last() =~= trades);
    }

    proof fn lemma_trade_rids_len(order: Order, trades: Seq<Trade>)
        ensures
            OrderBook::trade_rids(order, trades).len() == trades.len(),
        decreases trades.len(),
    {
        if trades.len() > 0 {
            OrderBook::lemma_trade_rids_len(order, trades.drop_last());
        }
    }

    /// Two book states whose levels hold the same slots behind
    /// every listed reference flatten to the same id sequence.
    proof fn lemma_flat_congruence(self, other: OrderBook, refs: Seq<PriceLevelRef>)
        requires
            forall|k: int|
                0 <= k < refs.len() ==> other.lvl((#[trigger] refs[k]).index as int).orders@
                    == self.lvl(refs[k].index as int).orders@,
        ensures
            other.flat_ids(refs) == self.flat_ids(refs),
        decreases refs.len(),
    {
        if refs.len() > 0 {
            assert(refs[0] == refs.first());
            assert forall|k: int|
                0 <= k < refs.drop_first().len() implies other.lvl(
                (#[trigger] refs.drop_first()[k]).index as int,
            ).orders@ == self.lvl(refs.drop_first()[k].index as int).orders@ by {
                assert(refs.drop_first()[k] == refs[k + 1]);
            }
            self.lemma_flat_congruence(other, refs.drop_first());
        }
    }

    /// What every trade of a matching pass satisfies: positive
    /// quantity, the incoming order on its own side of the trade,
    /// and — for anything but a market order — a price no worse
    /// than the incoming order's limit.
    pub open spec fn trades_ok(order: Order, trades: Seq<Trade>) -> bool {
        forall|n: int|
            0 <= n < trades.len() ==> {
                let t = #[trigger] trades[n];
                &&& t.quantity > 0
                &&& (order.side == Side::Buy ==> t.bid_order_id == order.order_id)
                &&& (order.side == Side::Sell ==> t.ask_order_id == order.order_id)
                &&& (order.order_type != OrderType::MarketOrder ==> crosses(
                    order.side,
                    order.price,
                    t.price,
                ))
            }
    }

    /// What one matching pass guarantees: no more quantity traded
    /// than asked, the incoming order not entered into the table,
    /// no new orders anywhere, the incoming order's own side
    /// untouched, and matching only stopped because the order was
    /// exhausted, the opposing side emptied, or its best price
    /// stopped being eligible.
    pub open spec fn match_post(pre: OrderBook, post: OrderBook, order: Order, trades: Seq<Trade>) -> bool {
        &&& sum_qty(trades) <= order.remaining_quantity
        &&& !post.orders@.contains_key(order.order_id)
        &&& (forall|id: OrderId|
            #[trigger] post.orders@.contains_key(id) ==> pre.orders@.contains_key(id))
        &&& post.side_refs(order.side) == pre.side_refs(order.side)
        &&& (forall|k: int|
            0 <= k < pre.side_refs(order.side).len() ==> {
                let r = #[trigger] pre.side_refs(order.side)[k];
                post.live(r.index as int) && post.lvl(r.index as int) == pre.lvl(r.index as int)
            })
        &&& OrderBook::trades_ok(order, trades)
        &&& post.price_levels@.len() == pre.price_levels@.len()
        &&& post.free_indices@.len() >= pre.free_indices@.len()
        &&& sum_qty(trades) == (if order.remaining_quantity <= pre.avail_qty(order) {
            order.remaining_quantity as int
        } else {
            pre.avail_qty(order)
        })
        &&& (forall|n: int|
            0 <= n < trades.len() - 1 ==> !price_better(
                opp(order.side),
                (#[trigger] trades[n + 1]).price,
                trades[n].price,
            ))
        &&& (forall|n: int|
            0 <= n < trades.len() ==> pre.orders@.contains_key(resting_id(
                order,
                #[trigger] trades[n],
            )))
        &&& (forall|n: int|
            0 <= n < trades.len() && (sum_qty(trades) < order.remaining_quantity || n
                < trades.len() - 1) ==> !post.orders@.contains_key(resting_id(
                order,
                #[trigger] trades[n],
            )))
        &&& (forall|n1: int, n2: int|
            0 <= n1 < n2 < trades.len() ==> resting_id(order, #[trigger] trades[n1])
                != resting_id(order, #[trigger] trades[n2]))
        &&& trades.len() <= pre.flat_ids(pre.side_refs(opp(order.side))).len()
        &&& OrderBook::trade_rids(order, trades) == pre.flat_ids(
            pre.side_refs(opp(order.side)),
        ).take(trades.len() as int)
        &&& (sum_qty(trades) == order.remaining_quantity || post.side_refs(
            opp(order.side),
        ).len() == 0 || (order.order_type != OrderType::MarketOrder && !crosses(
            order.side,
            order.price,
            post.side_refs(opp(order.side))[0].price,
        )))
    }

    /// What resting-order submission guarantees beyond a matching
    /// pass: the unfilled remainder rests in the book if and only
    /// if there is one, with its quantities and status advanced by
    /// what was just traded.
    pub open spec fn limit_post(pre: OrderBook, post: OrderBook, order: Order, trades: Seq<Trade>) -> bool {
        let s = sum_qty(trades);
        &&& s <= order.remaining_quantity
        &&& OrderBook::trades_ok(order, trades)
        &&& (forall|id: OrderId|
            id != order.order_id && #[trigger] post.orders@.contains_key(id)
                ==> pre.orders@.contains_key(id))
        &&& (s < order.remaining_quantity <==> post.orders@.contains_key(order.order_id))
        &&& (s < order.remaining_quantity ==> post.orders@[order.order_id].order == (Order {
            executed_quantity: (order.executed_quantity + s) as Quantity,
            remaining_quantity: (order.remaining_quantity - s) as Quantity,
            status: if s > 0 {
                Status::PartiallyFilled
            } else {
                order.status
            },
            ..order
        }))
        &&& (s < order.remaining_quantity ==> post.has_level(order.side, order.price))
        &&& post.price_levels@.len() >= pre.price_levels@.len()
        &&& ((pre.has_level(order.side, order.price) || pre.free_indices@.len() > 0)
            ==> post.price_levels@.len() == pre.price_levels@.len())
        &&& s == (if order.remaining_quantity <= pre.avail_qty(order) {
            order.remaining_quantity as int
        } else {
            pre.avail_qty(order)
        })
        &&& (forall|n: int|
            0 <= n < trades.len() - 1 ==> !price_better(
                opp(order.side),
                (#[trigger] trades[n + 1]).price,
                trades[n].price,
            ))
        &&& (forall|n: int|
            0 <= n < trades.len() ==> pre.orders@.contains_key(resting_id(
                order,
                #[trigger] trades[n],
            )))
        &&& (forall|n: int|
            0 <= n < trades.len() && (s < order.remaining_quantity || n < trades.len() - 1)
                ==> !post.orders@.contains_key(resting_id(order, #[trigger] trades[n])))
        &&& trades.len() <= pre.flat_ids(pre.side_refs(opp(order.side))).len()
        &&& OrderBook::trade_rids(order, trades) == pre.flat_ids(
            pre.side_refs(opp(order.side)),
        ).take(trades.len() as int)
    }

    /// Total volume resting at eligible prices on the opposing
    /// side, read off the best-first reference list: the first
    /// reference the order cannot trade against ends the count, and
    /// since the list is sorted nothing past it is eligible either.
    pub open spec fn avail_qty_from(self, refs: Seq<PriceLevelRef>, order: Order) -> int
        decreases refs.len(),
    {
        if refs.len() == 0 {
            0
        } else if marketable(order, refs.first().price) {
            self.lvl(refs.first().index as int).volume + self.avail_qty_from(
                refs.drop_first(),
                order,
            )
        } else {
            0
        }
    }

    /// Available opposing volume this order could trade against.
    pub open spec fn avail_qty(self, order: Order) -> int {
        self.avail_qty_from(self.side_refs(opp(order.side)), order)
    }

    proof fn lemma_avail_nonneg(self, refs: Seq<PriceLevelRef>, order: Order)
        ensures
            self.avail_qty_from(refs, order) >= 0,
        decreases refs.len(),
    {
        if refs.len() > 0 && marketable(order, refs.first().price) {
            self.lemma_avail_nonneg(refs.drop_first(), order);
        }
    }

    /// Two book states that give every referenced level the same
    /// volume see the same available quantity.
    proof fn lemma_avail_congruence(self, other: OrderBook, refs: Seq<PriceLevelRef>, order: Order)
        requires
            forall|k: int|
                0 <= k < refs.len() ==> other.lvl((#[trigger] refs[k]).index as int).volume
                    == self.lvl(refs[k].index as int).volume,
        ensures
            other.avail_qty_from(refs, order) == self.avail_qty_from(refs, order),
        decreases refs.len(),
    {
        if refs.len() > 0 {
            assert(refs[0] == refs.first());
            assert forall|k: int|
                0 <= k < refs.drop_first().len() implies other.lvl(
                (#[trigger] refs.drop_first()[k]).index as int,
            ).volume == self.lvl(refs.drop_first()[k].index as int).volume by {
                assert(refs.drop_first()[k] == refs[k + 1]);
            }
            self.lemma_avail_congruence(other, refs.drop_first(), order);
        }
    }

    /// Within one side, distinct references use distinct arena
    /// indices: prices are unique and each level has one price.
    proof fn lemma_side_indices_distinct(self, sd: Side, k1: int, k2: int)
        requires
            self.wf_side(sd),
            0 <= k1 < self.side_refs(sd).len(),
            0 <= k2 < self.side_refs(sd).len(),
            k1 != k2,
        ensures
            self.side_refs(sd)[k1].index != self.side_refs(sd)[k2].index,
    {
        let r1 = self.side_refs(sd)[k1];
        let r2 = self.side_refs(sd)[k2];
        assert(self.ref_ok(r1));
        assert(self.ref_ok(r2));
        if r1.index == r2.index {
            assert(r1.price == r2.price);
            if k1 < k2 {
                assert(price_better(sd, r1.price, r2.price));
            } else {
                assert(price_better(sd, r2.price, r1.price));
            }
        }
    }

    /// Whether some level rests at this price on this side.
    pub open spec fn has_level(self, side: Side, price: Price) -> bool {
        exists|k: int|
            0 <= k < self.side_refs(side).len() && (#[trigger] self.side_refs(side)[k]).price
                == price
    }

    /// The state a book operation is not allowed to disturb when it
    /// fails.
    pub open spec fn same_book(a: OrderBook, b: OrderBook) -> bool {
        &&& a.orders@ == b.orders@
        &&& a.bids@ == b.bids@
        &&& a.asks@ == b.asks@
        &&& a.free_indices@ == b.free_indices@
        &&& a.arena_model() == b.arena_model()
    }

    pub open spec fn level_model(l: PriceLevel) -> (Price, Seq<Option<OrderId>>, Quantity, usize) {
        (l.price, l.orders@, l.volume, l.order_count)
    }

    pub open spec fn arena_model(self) -> Seq<Option<(Price, Seq<Option<OrderId>>, Quantity, usize)>> {
        self.price_levels@.map_values(
            |ol: Option<PriceLevel>|
                match ol {
                    Some(l) => Some(OrderBook::level_model(l)),
                    None => None,
                },
        )
    }

    /// An empty book, with room reserved for `price_level_capacity_hint`
    /// levels and `order_capacity_hint` orders.
    pub fn new(price_level_capacity_hint: usize, order_capacity_hint: usize) -> (r: Self)
        ensures
            r.wf(),
            r.bids@.len() == 0,
            r.asks@.len() == 0,
            r.orders@ == Map::<OrderId, OrderEntry>::empty(),
            r.price_levels@.len() == 0,
            r.free_indices@.len() == 0,
            r.level_capacity == order_capacity_hint,
    {
        let price_levels: Vec<Option<PriceLevel>> = Vec::with_capacity(price_level_capacity_hint);
        let free_indices: VecDeque<usize> = VecDeque::with_capacity(price_level_capacity_hint);
        let r = OrderBook {
            bids: Vec::new(),
            asks: Vec::new(),
            orders: HashMap::with_capacity(order_capacity_hint),
            price_levels,
            free_indices,
            level_capacity: order_capacity_hint,
        };
        proof {
            assert(r.orders@.dom() =~= Set::<OrderId>::empty());
        }
        r
    }

    /// Highest price any buyer is bidding, if any buyer rests.
    pub fn get_best_bid(&self) -> (r: Option<Price>)
        requires
            self.wf(),
        ensures
            match r {
                Some(p) => self.bids@.len() > 0 && p == self.bids@[0].price && forall|k: int|
                    0 <= k < self.bids@.len() ==> (#[trigger] self.bids@[k]).price <= p,
                None => self.bids@.len() == 0,
            },
    {
        if self.bids.len() > 0 {
            proof {
                assert forall|k: int|
                    0 <= k < self.bids@.len() implies (#[trigger] self.bids@[k]).price
                    <= self.bids@[0].price by {
                    if k > 0 {
                        assert(price_better(Side::Buy, self.bids@[0].price, self.bids@[k].price));
                    }
                }
            }
            Some(self.bids[0].price)
        } else {
            None
        }
    }

    /// Lowest price any seller is asking, if any seller rests.
    pub fn get_best_ask(&self) -> (r: Option<Price>)
        requires
            self.wf(),
        ensures
            match r {
                Some(p) => self.asks@.len() > 0 && p == self.asks@[0].price && forall|k: int|
                    0 <= k < self.asks@.len() ==> (#[trigger] self.asks@[k]).price >= p,
                None => self.asks@.len() == 0,
            },
    {
        if self.asks.len() > 0 {
            proof {
                assert forall|k: int|
                    0 <= k < self.asks@.len() implies (#[trigger] self.asks@[k]).price
                    >= self.asks@[0].price by {
                    if k > 0 {
                        assert(price_better(Side::Sell, self.asks@[0].price, self.asks@[k].price));
                    }
                }
            }
            Some(self.asks[0].price)
        } else {
            None
        }
    }

    /// Position in a side map of the reference carrying `price`, if
    /// one is there.
    fn find_level_pos(refs: &Vec<PriceLevelRef>, price: Price) -> (r: Option<usize>)
        ensures
            match r {
                Some(k) => k < refs@.len() && refs@[k as int].price == price,
                None => forall|k: int|
                    0 <= k < refs@.len() ==> (#[trigger] refs@[k]).price != price,
            },
    {
        let n = refs.len();
        let mut k: usize = 0;
        while k < n
            invariant
                n == refs@.len(),
                k <= n,
                forall|j: int| 0 <= j < k ==> (#[trigger] refs@[j]).price != price,
            decreases n - k,
        {
            if refs[k].price == price {
                return Some(k);
            }
            k = k + 1;
        }
        None
    }

    /// Where a reference at a fresh price belongs in a sorted side
    /// map.
    fn find_insert_pos(refs: &Vec<PriceLevelRef>, side: Side, price: Price) -> (r: usize)
        requires
            refs_sorted(refs@, side),
            forall|k: int| 0 <= k < refs@.len() ==> (#[trigger] refs@[k]).price != price,
        ensures
            r <= refs@.len(),
            forall|k: int| 0 <= k < r ==> price_better(side, (#[trigger] refs@[k]).price, price),
            forall|k: int|
                r <= k < refs@.len() ==> price_better(side, price, (#[trigger] refs@[k]).price),
    {
        let n = refs.len();
        let mut k: usize = 0;
        while k < n
            invariant
                n == refs@.len(),
                k <= n,
                refs_sorted(refs@, side),
                forall|j: int| 0 <= j < refs@.len() ==> (#[trigger] refs@[j]).price != price,
                forall|j: int| 0 <= j < k ==> price_better(side, (#[trigger] refs@[j]).price, price),
            decreases n - k,
        {
            let better = match side {
                Side::Buy => refs[k].price > price,
                Side::Sell => refs[k].price < price,
            };
            if !better {
                proof {
                    assert forall|j: int|
                        k <= j < refs@.len() implies price_better(
                        side,
                        price,
                        (#[trigger] refs@[j]).price,
                    ) by {
                        if j > k {
                            assert(price_better(side, refs@[k as int].price, refs@[j].price));
                        }
                    }
                }
                return k;
            }
            k = k + 1;
        }
        n
    }

    /// Removing one resting order — its table entry deleted, its
    /// slot cleared, its level's counters decremented — preserves
    /// the book invariant, except that when the level just became
    /// empty it still waits to be torn down.
    #[verifier::rlimit(75)]
    proof fn lemma_slot_cleared(self, pre: OrderBook, id: OrderId, l_new: PriceLevel)
        requires
            pre.wf(),
            pre.orders@.contains_key(id),
            ({
                let e = pre.orders@[id];
                let i = e.price_level_cursor as int;
                let l_old = pre.lvl(i);
                &&& l_new.orders@ == l_old.orders@.update(e.order_cursor as int, None)
                &&& l_new.volume == l_old.volume - e.order.remaining_quantity
                &&& l_new.order_count == l_old.order_count - 1
                &&& l_new.price == l_old.price
                &&& l_new.wf()
                &&& self.price_levels@ == pre.price_levels@.update(i, Some(l_new))
            }),
            self.orders@ == pre.orders@.remove(id),
            self.bids@ == pre.bids@,
            self.asks@ == pre.asks@,
            self.free_indices@ == pre.free_indices@,
        ensures
            l_new.order_count > 0 ==> self.wf(),
            l_new.order_count == 0 ==> self.wf_except_teardown(
                pre.orders@[id].order.side,
                pre.orders@[id].order.price,
                pre.orders@[id].price_level_cursor as int,
            ),
    {
        let e = pre.orders@[id];
        let i = e.price_level_cursor as int;
        let cursor = e.order_cursor as int;
        let l_old = pre.lvl(i);
        let side = e.order.side;
        assert(pre.entry_ok(id));
        assert(pre.live(i));
        assert(pre.slots_ok(i) && pre.level_ok(i));
        assert(self.live(i) && self.lvl(i) == l_new);
        assert(forall|j: int| j != i ==> #[trigger] self.live(j) == pre.live(j));
        assert(forall|j: int| j != i && pre.live(j) ==> #[trigger] self.lvl(j) == pre.lvl(j));
        assert(l_old.orders@[cursor] == Some(id));

        // side maps keep their shape; only the touched level's count
        // may have reached zero
        assert(pre.wf_side(Side::Buy) && pre.wf_side(Side::Sell));
        assert forall|kk: int| 0 <= kk < self.side_refs(Side::Buy).len() implies {
            let r = #[trigger] self.side_refs(Side::Buy)[kk];
            &&& self.live(r.index as int)
            &&& self.lvl(r.index as int).price == r.price
            &&& (r.index as int != i ==> self.lvl(r.index as int).order_count > 0)
        } by {
            let r = pre.side_refs(Side::Buy)[kk];
            assert(pre.ref_ok(r));
            if r.index as int == i {
                assert(self.lvl(i).price == l_old.price);
            }
        }
        assert forall|kk: int| 0 <= kk < self.side_refs(Side::Sell).len() implies {
            let r = #[trigger] self.side_refs(Side::Sell)[kk];
            &&& self.live(r.index as int)
            &&& self.lvl(r.index as int).price == r.price
            &&& (r.index as int != i ==> self.lvl(r.index as int).order_count > 0)
        } by {
            let r = pre.side_refs(Side::Sell)[kk];
            assert(pre.ref_ok(r));
            if r.index as int == i {
                assert(self.lvl(i).price == l_old.price);
            }
        }
        assert(self.wf_side_except(Side::Buy, i));
        assert(self.wf_side_except(Side::Sell, i));

        // the order table
        assert forall|id2: OrderId| #[trigger]
            self.orders@.contains_key(id2) implies self.entry_ok(id2) by {
            assert(id2 != id);
            assert(pre.orders@.contains_key(id2));
            assert(pre.entry_ok(id2));
            let e2 = pre.orders@[id2];
            assert(self.orders@[id2] == e2);
            if e2.price_level_cursor as int == i {
                assert(l_old.orders@[e2.order_cursor as int] == Some(id2));
                assert(e2.order_cursor as int != cursor);
                assert(l_new.orders@[e2.order_cursor as int] == Some(id2));
                assert(self.lvl(i).price == e2.order.price);
            } else {
                assert(self.lvl(e2.price_level_cursor as int) == pre.lvl(
                    e2.price_level_cursor as int,
                ));
            }
            assert(self.side_refs(e2.order.side) == pre.side_refs(e2.order.side));
        }

        // the levels
        assert(l_old.wf());
        lemma_active_distinct(l_old.orders@);
        lemma_active_clear(l_old.orders@, cursor);
        let p = active_count(l_old.orders@.take(cursor)) as int;
        let act_old = active_ids(l_old.orders@);
        assert(act_old[p] == id);
        assert(active_ids(l_new.orders@) == act_old.remove(p));
        assert forall|j: int| #[trigger]
            self.live(j) implies self.slots_ok(j) && self.level_ok(j) by {
            assert(pre.live(j));
            assert(pre.slots_ok(j) && pre.level_ok(j));
            if j == i {
                assert forall|s: int|
                    0 <= s < l_new.orders@.len() && (#[trigger] l_new.orders@[s]) is Some implies {
                    let sid = l_new.orders@[s].unwrap();
                    &&& self.orders@.contains_key(sid)
                    &&& self.orders@[sid].price_level_cursor == j
                    &&& self.orders@[sid].order_cursor == s
                } by {
                    assert(s != cursor);
                    assert(l_old.orders@[s] == l_new.orders@[s]);
                    let sid = l_old.orders@[s].unwrap();
                    assert(pre.orders@.contains_key(sid));
                    assert(pre.orders@[sid].order_cursor == s);
                    assert(sid != id);
                }
                assert forall|q: int| 0 <= q < act_old.remove(p).len() implies self.orders@[#[trigger] act_old.remove(
                    p,
                )[q]].order.remaining_quantity == pre.orders@[act_old.remove(
                    p,
                )[q]].order.remaining_quantity by {
                    if q < p {
                        assert(act_old.remove(p)[q] == act_old[q]);
                    } else {
                        assert(act_old.remove(p)[q] == act_old[q + 1]);
                    }
                }
                lemma_sum_rem_congruence(act_old.remove(p), pre.orders@, self.orders@);
                lemma_sum_rem_remove(act_old, pre.orders@, p);
                assert(self.lvl(i).volume == sum_rem(active_ids(self.lvl(i).orders@), self.orders@));
            } else {
                assert(self.lvl(j) == pre.lvl(j));
                let act = active_ids(pre.lvl(j).orders@);
                assert forall|q: int| 0 <= q < act.len() implies self.orders@[#[trigger] act[q]].order.remaining_quantity
                    == pre.orders@[act[q]].order.remaining_quantity by {
                    lemma_active_from_slot(pre.lvl(j).orders@, q);
                    let sk = choose|sk: int|
                        0 <= sk < pre.lvl(j).orders@.len() && pre.lvl(j).orders@[sk] == Some(
                            act[q],
                        );
                    assert(pre.orders@.contains_key(act[q]));
                    assert(pre.orders@[act[q]].price_level_cursor == j);
                    assert(act[q] != id);
                }
                lemma_sum_rem_congruence(act, pre.orders@, self.orders@);
                assert forall|s: int|
                    0 <= s < self.lvl(j).orders@.len() && (#[trigger] self.lvl(j).orders@[s])
                        is Some implies {
                    let sid = self.lvl(j).orders@[s].unwrap();
                    &&& self.orders@.contains_key(sid)
                    &&& self.orders@[sid].price_level_cursor == j
                    &&& self.orders@[sid].order_cursor == s
                } by {
                    let sid = pre.lvl(j).orders@[s].unwrap();
                    assert(pre.orders@.contains_key(sid));
                    assert(pre.orders@[sid].price_level_cursor == j);
                    assert(sid != id);
                }
            }
        }

        // freed indices all point away from the touched level
        assert forall|f: int| 0 <= f < self.free_indices@.len() implies {
            let fi = (#[trigger] self.free_indices@[f]) as int;
            &&& fi < self.price_levels@.len()
            &&& self.price_levels@[fi] is None
        } by {
            let fi = pre.free_indices@[f] as int;
            assert(pre.price_levels@[fi] is None);
            assert(fi != i);
        }

        // counting
        lemma_total_active_update(pre.price_levels@, i, Some(l_new));
        assert(self.orders@.dom() =~= pre.orders@.dom().remove(id));
        assert(self.orders@.dom().len() == pre.orders@.dom().len() - 1);
        assert(self.wf_total());

        if l_new.order_count > 0 {
            assert(self.wf_side(Side::Buy));
            assert(self.wf_side(Side::Sell));
            assert(self.wf());
        } else {
            assert(self.lvl(i).order_count == 0);
            assert(self.lvl(i).price == e.order.price);
            let theref = PriceLevelRef { index: e.price_level_cursor, price: e.order.price };
            assert(pre.side_refs(side).contains(theref));
            assert(self.side_refs(side).contains(theref));
            let kw = choose|kw: int|
                0 <= kw < pre.side_refs(side).len() && pre.side_refs(side)[kw] == theref;
            assert forall|k2: int|
                0 <= k2 < pre.side_refs(opp(side)).len() implies (#[trigger] pre.side_refs(
                opp(side),
            )[k2]).index as int != i by {
                match side {
                    Side::Buy => {
                        assert(pre.bids@[kw].index != pre.asks@[k2].index);
                    },
                    Side::Sell => {
                        assert(pre.bids@[k2].index != pre.asks@[kw].index);
                    },
                }
            }
            assert forall|kk: int|
                0 <= kk < self.side_refs(opp(side)).len() implies self.ref_ok(
                #[trigger] self.side_refs(opp(side))[kk],
            ) by {
                let r = pre.side_refs(opp(side))[kk];
                assert(pre.ref_ok(r));
                assert(r.index as int != i);
            }
            assert(self.wf_side(opp(side)));
            match side {
                Side::Buy => {
                    assert(self.wf_side_except(Side::Buy, i));
                    assert(self.wf_side(Side::Sell));
                },
                Side::Sell => {
                    assert(self.wf_side_except(Side::Sell, i));
                    assert(self.wf_side(Side::Buy));
                },
            }
            assert(self.wf_except_teardown(side, e.order.price, i));
        }
    }

    /// A partial fill of one resting order — its table entry
    /// re-recorded with the new quantities, its level's volume
    /// reduced, everything else untouched — preserves the book
    /// invariant.
    #[verifier::rlimit(75)]
    proof fn lemma_front_partial(self, pre: OrderBook, fid: OrderId, q: Quantity, l_new: PriceLevel)
        requires
            pre.wf(),
            pre.orders@.contains_key(fid),
            0 < q < pre.orders@[fid].order.remaining_quantity,
            ({
                let fe = pre.orders@[fid];
                let i = fe.price_level_cursor as int;
                let l_old = pre.lvl(i);
                &&& self.orders@ == pre.orders@.insert(fid, (OrderEntry {
                    order: (Order {
                        executed_quantity: (fe.order.executed_quantity + q) as Quantity,
                        remaining_quantity: (fe.order.remaining_quantity - q) as Quantity,
                        status: Status::PartiallyFilled,
                        ..fe.order
                    }),
                    ..fe
                }))
                &&& self.price_levels@ == pre.price_levels@.update(i, Some(l_new))
                &&& l_new.orders@ == l_old.orders@
                &&& l_new.volume == l_old.volume - q
                &&& l_new.order_count == l_old.order_count
                &&& l_new.price == l_old.price
            }),
            self.bids@ == pre.bids@,
            self.asks@ == pre.asks@,
            self.free_indices@ == pre.free_indices@,
        ensures
            self.wf(),
            self.orders@.dom() == pre.orders@.dom(),
    {
        let fe = pre.orders@[fid];
        let i = fe.price_level_cursor as int;
        let cursor = fe.order_cursor as int;
        let l_old = pre.lvl(i);
        assert(pre.entry_ok(fid));
        assert(pre.live(i));
        assert(pre.slots_ok(i) && pre.level_ok(i));
        assert(l_old.wf());
        assert(self.live(i) && self.lvl(i) == l_new);
        assert(l_new.wf());
        assert(forall|j: int| j != i ==> #[trigger] self.live(j) == pre.live(j));
        assert(forall|j: int| j != i && pre.live(j) ==> #[trigger] self.lvl(j) == pre.lvl(j));
        assert(self.orders@.dom() =~= pre.orders@.dom());

        // side maps: nothing about them changed that `ref_ok` sees
        assert(pre.wf_side(Side::Buy) && pre.wf_side(Side::Sell));
        assert forall|kk: int|
            0 <= kk < self.side_refs(Side::Buy).len() implies self.ref_ok(
            #[trigger] self.side_refs(Side::Buy)[kk],
        ) by {
            let r = pre.side_refs(Side::Buy)[kk];
            assert(pre.ref_ok(r));
            if r.index as int == i {
                assert(self.lvl(i).price == l_old.price);
            }
        }
        assert forall|kk: int|
            0 <= kk < self.side_refs(Side::Sell).len() implies self.ref_ok(
            #[trigger] self.side_refs(Side::Sell)[kk],
        ) by {
            let r = pre.side_refs(Side::Sell)[kk];
            assert(pre.ref_ok(r));
            if r.index as int == i {
                assert(self.lvl(i).price == l_old.price);
            }
        }
        assert(self.wf_side(Side::Buy));
        assert(self.wf_side(Side::Sell));

        // the order table
        assert forall|id2: OrderId| #[trigger]
            self.orders@.contains_key(id2) implies self.entry_ok(id2) by {
            assert(pre.orders@.contains_key(id2));
            assert(pre.entry_ok(id2));
            let e2 = pre.orders@[id2];
            if id2 == fid {
                assert(self.orders@[fid].order.order_id == fid);
                assert(self.orders@[fid].order.wf());
                assert(self.lvl(i).orders@[cursor] == Some(fid));
                assert(self.lvl(i).price == fe.order.price);
            } else {
                assert(self.orders@[id2] == e2);
                if e2.price_level_cursor as int == i {
                    assert(self.lvl(i).orders@[e2.order_cursor as int] == Some(id2));
                    assert(self.lvl(i).price == e2.order.price);
                } else {
                    assert(self.lvl(e2.price_level_cursor as int) == pre.lvl(
                        e2.price_level_cursor as int,
                    ));
                }
            }
            assert(self.side_refs(e2.order.side) == pre.side_refs(e2.order.side));
        }

        // the levels
        lemma_active_distinct(l_old.orders@);
        lemma_active_clear(l_old.orders@, cursor);
        let p = active_count(l_old.orders@.take(cursor)) as int;
        let act = active_ids(l_old.orders@);
        assert(act[p] == fid);
        assert forall|j: int| #[trigger]
            self.live(j) implies self.slots_ok(j) && self.level_ok(j) by {
            assert(pre.live(j));
            assert(pre.slots_ok(j) && pre.level_ok(j));
            if j == i {
                assert forall|s: int|
                    0 <= s < l_new.orders@.len() && (#[trigger] l_new.orders@[s]) is Some implies {
                    let sid = l_new.orders@[s].unwrap();
                    &&& self.orders@.contains_key(sid)
                    &&& self.orders@[sid].price_level_cursor == j
                    &&& self.orders@[sid].order_cursor == s
                } by {
                    let sid = l_old.orders@[s].unwrap();
                    assert(pre.orders@.contains_key(sid));
                }
                lemma_sum_rem_update(act, pre.orders@, p, self.orders@[fid]);
                assert(self.lvl(i).volume == sum_rem(active_ids(self.lvl(i).orders@), self.orders@));
            } else {
                assert(self.lvl(j) == pre.lvl(j));
                let act2 = active_ids(pre.lvl(j).orders@);
                assert forall|pp: int| 0 <= pp < act2.len() implies self.orders@[#[trigger] act2[pp]].order.remaining_quantity
                    == pre.orders@[act2[pp]].order.remaining_quantity by {
                    lemma_active_from_slot(pre.lvl(j).orders@, pp);
                    let sk = choose|sk: int|
                        0 <= sk < pre.lvl(j).orders@.len() && pre.lvl(j).orders@[sk] == Some(
                            act2[pp],
                        );
                    assert(pre.orders@.contains_key(act2[pp]));
                    assert(pre.orders@[act2[pp]].price_level_cursor == j);
                    assert(act2[pp] != fid);
                }
                lemma_sum_rem_congruence(act2, pre.orders@, self.orders@);
                assert forall|s: int|
                    0 <= s < self.lvl(j).orders@.len() && (#[trigger] self.lvl(j).orders@[s])
                        is Some implies {
                    let sid = self.lvl(j).orders@[s].unwrap();
                    &&& self.orders@.contains_key(sid)
                    &&& self.orders@[sid].price_level_cursor == j
                    &&& self.orders@[sid].order_cursor == s
                } by {
                    let sid = pre.lvl(j).orders@[s].unwrap();
                    assert(pre.orders@.contains_key(sid));
                    assert(pre.orders@[sid].price_level_cursor == j);
                    assert(sid != fid);
                }
            }
        }

        // freed indices
        assert forall|f: int| 0 <= f < self.free_indices@.len() implies {
            let fi = (#[trigger] self.free_indices@[f]) as int;
            &&& fi < self.price_levels@.len()
            &&& self.price_levels@[fi] is None
        } by {
            let fi = pre.free_indices@[f] as int;
            assert(pre.price_levels@[fi] is None);
            assert(fi != i);
        }

        // counting: nothing entered or left
        lemma_total_active_update(pre.price_levels@, i, Some(l_new));
        assert(level_total(Some(l_new)) == level_total(pre.price_levels@[i]));
        assert(self.wf_total());
        assert(self.wf());
    }

    /// Tearing down an empty level — its arena slot cleared, its
    /// index queued for reuse, its side-map reference dropped —
    /// restores the full book invariant.
    #[verifier::rlimit(75)]
    proof fn lemma_teardown(
        self,
        pre: OrderBook,
        side: Side,
        price: Price,
        i: int,
        k: int,
    )
        requires
            pre.wf_except_teardown(side, price, i),
            0 <= k < pre.side_refs(side).len(),
            pre.side_refs(side)[k] == (PriceLevelRef { index: i as usize, price }),
            self.side_refs(side) == pre.side_refs(side).remove(k),
            self.side_refs(opp(side)) == pre.side_refs(opp(side)),
            self.orders@ == pre.orders@,
            self.price_levels@ == pre.price_levels@.update(i, None),
            self.free_indices@ == pre.free_indices@.push(i as usize),
        ensures
            self.wf(),
            forall|kk: int|
                0 <= kk < self.side_refs(side).len() ==> (#[trigger] self.side_refs(
                    side,
                )[kk]).price != price,
    {
        let s_old = pre.side_refs(side);
        let s_new = self.side_refs(side);
        s_old.remove_ensures(k);
        assert(pre.live(i));
        assert(forall|j: int| j != i ==> #[trigger] self.live(j) == pre.live(j));
        assert(forall|j: int| j != i && pre.live(j) ==> #[trigger] self.lvl(j) == pre.lvl(j));
        assert(!self.live(i));

        // the level was empty: no slot of it is occupied
        assert(pre.level_ok(i));
        assert(pre.lvl(i).wf());
        assert(active_count(pre.lvl(i).orders@) == 0);
        assert forall|s: int|
            0 <= s < pre.lvl(i).orders@.len() implies !((#[trigger] pre.lvl(i).orders@[s])
            is Some) by {
            if pre.lvl(i).orders@[s] is Some {
                lemma_active_contains(pre.lvl(i).orders@, s);
            }
        }

        // no other reference of this side carries index i (or this
        // price)
        assert forall|kk: int|
            0 <= kk < s_old.len() && kk != k implies (#[trigger] s_old[kk]).index as int != i
            && s_old[kk].price != price by {
            let r = s_old[kk];
            if r.index as int == i {
                assert(pre.lvl(i).price == price);
                assert(r.price == price);
                if kk < k {
                    assert(price_better(side, s_old[kk].price, s_old[k].price));
                } else {
                    assert(price_better(side, s_old[k].price, s_old[kk].price));
                }
            } else {
                if r.price == price {
                    if kk < k {
                        assert(price_better(side, s_old[kk].price, s_old[k].price));
                    } else {
                        assert(price_better(side, s_old[k].price, s_old[kk].price));
                    }
                }
            }
        }
        // nor any reference of the other side
        assert forall|k2: int|
            0 <= k2 < pre.side_refs(opp(side)).len() implies (#[trigger] pre.side_refs(
            opp(side),
        )[k2]).index as int != i by {
            match side {
                Side::Buy => {
                    assert(pre.bids@[k].index != pre.asks@[k2].index);
                },
                Side::Sell => {
                    assert(pre.bids@[k2].index != pre.asks@[k].index);
                },
            }
        }

        // the shrunk side map
        assert forall|a: int, b: int|
            0 <= a < b < s_new.len() implies price_better(side, s_new[a].price, s_new[b].price) by {
            let pa = if a < k { a } else { a + 1 };
            let pb = if b < k { b } else { b + 1 };
            assert(s_new[a] == s_old[pa] && s_new[b] == s_old[pb]);
        }
        assert forall|kk: int| 0 <= kk < s_new.len() implies self.ref_ok(
            #[trigger] s_new[kk],
        ) && s_new[kk].price != price by {
            let pk = if kk < k { kk } else { kk + 1 };
            assert(s_new[kk] == s_old[pk]);
            assert(s_old[pk].index as int != i);
            assert(self.lvl(s_old[pk].index as int) == pre.lvl(s_old[pk].index as int));
        }
        assert forall|kk: int|
            0 <= kk < self.side_refs(opp(side)).len() implies self.ref_ok(
            #[trigger] self.side_refs(opp(side))[kk],
        ) by {
            let r = pre.side_refs(opp(side))[kk];
            assert(pre.wf_side(opp(side)));
            assert(pre.ref_ok(r));
            assert(r.index as int != i);
        }
        assert(refs_sorted(s_new, side));
        assert(refs_sorted(self.side_refs(opp(side)), opp(side)));
        match side {
            Side::Buy => {
                assert(self.wf_side(Side::Buy));
                assert(self.wf_side(Side::Sell));
            },
            Side::Sell => {
                assert(self.wf_side(Side::Sell));
                assert(self.wf_side(Side::Buy));
            },
        }
        // disjointness survives dropping one reference
        assert forall|k1: int, k2: int|
            0 <= k1 < self.bids@.len() && 0 <= k2 < self.asks@.len() implies (#[trigger] self.bids@[k1]).index
            != (#[trigger] self.asks@[k2]).index by {
            match side {
                Side::Buy => {
                    let p1 = if k1 < k { k1 } else { k1 + 1 };
                    assert(self.bids@[k1] == pre.bids@[p1]);
                    assert(self.asks@[k2] == pre.asks@[k2]);
                    assert(pre.bids@[p1].index != pre.asks@[k2].index);
                },
                Side::Sell => {
                    let p2 = if k2 < k { k2 } else { k2 + 1 };
                    assert(self.asks@[k2] == pre.asks@[p2]);
                    assert(self.bids@[k1] == pre.bids@[k1]);
                    assert(pre.bids@[k1].index != pre.asks@[p2].index);
                },
            }
        }

        // entries: none of them rested on the torn-down level
        assert forall|id2: OrderId| #[trigger]
            self.orders@.contains_key(id2) implies self.entry_ok(id2) by {
            assert(pre.orders@.contains_key(id2));
            assert(pre.entry_ok(id2));
            let e2 = pre.orders@[id2];
            assert(e2.price_level_cursor as int != i);
            assert(self.lvl(e2.price_level_cursor as int) == pre.lvl(e2.price_level_cursor as int));
            let oldref = PriceLevelRef { index: e2.price_level_cursor, price: e2.order.price };
            if e2.order.side == side {
                assert(pre.side_refs(side).contains(oldref));
                let kw = choose|kw: int| 0 <= kw < s_old.len() && s_old[kw] == oldref;
                assert(kw != k);
                if kw < k {
                    assert(s_new[kw] == oldref);
                } else {
                    assert(s_new[kw - 1] == oldref);
                }
                assert(self.side_refs(side).contains(oldref));
            } else {
                assert(e2.order.side == opp(side)) by {
                    match side {
                        Side::Buy => {},
                        Side::Sell => {},
                    }
                }
                assert(self.side_refs(e2.order.side) == pre.side_refs(e2.order.side));
            }
        }

        // the levels that remain are untouched
        assert forall|j: int| #[trigger]
            self.live(j) implies self.slots_ok(j) && self.level_ok(j) by {
            assert(j != i);
            assert(pre.live(j));
            assert(pre.slots_ok(j) && pre.level_ok(j));
            assert(self.lvl(j) == pre.lvl(j));
        }

        // freed indices: the old ones avoided i, the new one is i
        assert forall|f: int| 0 <= f < self.free_indices@.len() implies {
            let fi = (#[trigger] self.free_indices@[f]) as int;
            &&& fi < self.price_levels@.len()
            &&& self.price_levels@[fi] is None
        } by {
            if f < pre.free_indices@.len() {
                let fi = pre.free_indices@[f] as int;
                assert(pre.price_levels@[fi] is None);
                assert(fi != i);
            } else {
                assert(self.free_indices@[f] == i as usize);
            }
        }
        assert forall|f1: int, f2: int|
            0 <= f1 < f2 < self.free_indices@.len() implies self.free_indices@[f1]
            != self.free_indices@[f2] by {
            if f2 == pre.free_indices@.len() {
                let fi = pre.free_indices@[f1] as int;
                assert(pre.price_levels@[fi] is None);
                assert(fi != i);
            }
        }

        // counting: an empty level contributes nothing
        lemma_total_active_update(pre.price_levels@, i, None);
        assert(level_total(pre.price_levels@[i]) == 0);
        assert(self.wf_total());
        assert(self.wf());
    }

    /// Resting an order onto an existing level preserves the book
    /// invariant: the appended slot, the new table entry and the
    /// level's counters all line up again.
    #[verifier::rlimit(50)]
    proof fn lemma_rested_in_level(
        self,
        pre: OrderBook,
        order: Order,
        i: int,
        cursor: int,
        l_old: PriceLevel,
        l_new: PriceLevel,
        k: int,
    )
        requires
            pre.wf(),
            order.wf(),
            order.remaining_quantity > 0,
            !pre.orders@.contains_key(order.order_id),
            0 <= k < pre.side_refs(order.side).len(),
            pre.side_refs(order.side)[k].price == order.price,
            pre.side_refs(order.side)[k].index as int == i,
            0 <= i <= usize::MAX,
            pre.live(i),
            l_old == pre.lvl(i),
            cursor == l_old.orders@.len(),
            0 <= cursor <= usize::MAX,
            l_new.orders@ == l_old.orders@.push(Some(order.order_id)),
            l_new.volume == l_old.volume + order.remaining_quantity,
            l_new.order_count == l_old.order_count + 1,
            l_new.price == l_old.price,
            l_new.wf(),
            active_ids(l_new.orders@) == active_ids(l_old.orders@).push(order.order_id),
            self.price_levels@ == pre.price_levels@.update(i, Some(l_new)),
            self.orders@ == pre.orders@.insert(
                order.order_id,
                (OrderEntry {
                    order: order,
                    order_cursor: cursor as usize,
                    price_level_cursor: i as usize,
                }),
            ),
            self.bids@ == pre.bids@,
            self.asks@ == pre.asks@,
            self.free_indices@ == pre.free_indices@,
        ensures
            self.wf(),
            self.orders@.dom() == pre.orders@.dom().insert(order.order_id),
            self.has_level(order.side, order.price),
    {
        let id = order.order_id;
        let side = order.side;
        assert(self.price_levels@.len() == pre.price_levels@.len());
        assert(self.live(i) && self.lvl(i) == l_new);
        assert(forall|j: int| j != i ==> #[trigger] self.live(j) == pre.live(j));
        assert(forall|j: int|
            j != i && pre.live(j) ==> #[trigger] self.lvl(j) == pre.lvl(j));
        assert(self.orders@.dom() =~= pre.orders@.dom().insert(id));
        assert(pre.live(i));
        assert(pre.slots_ok(i) && pre.level_ok(i));
        assert(pre.wf_side(side));
        assert(pre.ref_ok(pre.side_refs(side)[k]));
        assert(l_old.price == order.price);

        // side maps: unchanged sequences over an arena that changed
        // only at a level that kept its price and grew its count
        assert forall|kk: int|
            0 <= kk < self.side_refs(Side::Buy).len() implies self.ref_ok(
            #[trigger] self.side_refs(Side::Buy)[kk],
        ) by {
            let r = pre.side_refs(Side::Buy)[kk];
            assert(pre.ref_ok(r));
            if r.index as int == i {
                assert(self.lvl(i).price == l_old.price);
            }
        }
        assert forall|kk: int|
            0 <= kk < self.side_refs(Side::Sell).len() implies self.ref_ok(
            #[trigger] self.side_refs(Side::Sell)[kk],
        ) by {
            let r = pre.side_refs(Side::Sell)[kk];
            assert(pre.ref_ok(r));
            if r.index as int == i {
                assert(self.lvl(i).price == l_old.price);
            }
        }
        assert(self.wf_side(Side::Buy));
        assert(self.wf_side(Side::Sell));

        // the order table
        assert forall|id2: OrderId| #[trigger]
            self.orders@.contains_key(id2) implies self.entry_ok(id2) by {
            if id2 == id {
                assert(l_new.orders@[cursor] == Some(id));
                assert(self.lvl(i) == l_new);
                assert(self.orders@[id].order.price == l_new.price);
                assert(pre.side_refs(side)[k] == (PriceLevelRef {
                    index: i as usize,
                    price: order.price,
                }));
                assert(self.side_refs(side) == pre.side_refs(side));
                assert(self.side_refs(side)[k] == (PriceLevelRef {
                    index: i as usize,
                    price: order.price,
                }));
                assert(self.side_refs(side).contains(
                    PriceLevelRef { index: i as usize, price: order.price },
                ));
            } else {
                assert(pre.orders@.contains_key(id2));
                assert(pre.entry_ok(id2));
                let e2 = pre.orders@[id2];
                assert(self.orders@[id2] == e2);
                if e2.price_level_cursor as int == i {
                    assert(l_new.orders@[e2.order_cursor as int] == l_old.orders@[e2.order_cursor as int]);
                    assert(self.lvl(e2.price_level_cursor as int).price == e2.order.price);
                } else {
                    assert(self.lvl(e2.price_level_cursor as int) == pre.lvl(
                        e2.price_level_cursor as int,
                    ));
                }
                assert(self.side_refs(e2.order.side) == pre.side_refs(e2.order.side));
            }
        }

        // the levels
        assert forall|j: int| #[trigger]
            self.live(j) implies self.slots_ok(j) && self.level_ok(j) by {
            assert(pre.live(j));
            assert(pre.slots_ok(j) && pre.level_ok(j));
            if j == i {
                assert forall|s: int|
                    0 <= s < l_new.orders@.len() && (#[trigger] l_new.orders@[s]) is Some implies {
                    let sid = l_new.orders@[s].unwrap();
                    &&& self.orders@.contains_key(sid)
                    &&& self.orders@[sid].price_level_cursor == i
                    &&& self.orders@[sid].order_cursor == s
                } by {
                    if s < l_old.orders@.len() {
                        assert(l_old.orders@[s] is Some);
                        let sid = l_old.orders@[s].unwrap();
                        assert(pre.orders@.contains_key(sid));
                        assert(sid != id);
                    } else {
                        assert(s == cursor);
                    }
                }
                let act_old = active_ids(l_old.orders@);
                assert forall|p: int| 0 <= p < act_old.len() implies self.orders@[#[trigger] act_old[p]].order.remaining_quantity
                    == pre.orders@[act_old[p]].order.remaining_quantity by {
                    lemma_active_from_slot(l_old.orders@, p);
                    let sk = choose|sk: int|
                        0 <= sk < l_old.orders@.len() && l_old.orders@[sk] == Some(act_old[p]);
                    assert(pre.orders@.contains_key(act_old[p]));
                }
                lemma_sum_rem_congruence(act_old, pre.orders@, self.orders@);
                lemma_sum_rem_push(act_old, self.orders@, id);
                assert(self.orders@[id].order.remaining_quantity == order.remaining_quantity);
                assert(self.lvl(i).volume == sum_rem(active_ids(self.lvl(i).orders@), self.orders@));
            } else {
                assert(self.lvl(j) == pre.lvl(j));
                let act = active_ids(pre.lvl(j).orders@);
                assert forall|p: int| 0 <= p < act.len() implies self.orders@[#[trigger] act[p]].order.remaining_quantity
                    == pre.orders@[act[p]].order.remaining_quantity by {
                    lemma_active_from_slot(pre.lvl(j).orders@, p);
                    let sk = choose|sk: int|
                        0 <= sk < pre.lvl(j).orders@.len() && pre.lvl(j).orders@[sk] == Some(
                            act[p],
                        );
                    assert(pre.orders@.contains_key(act[p]));
                }
                lemma_sum_rem_congruence(act, pre.orders@, self.orders@);
                assert forall|s: int|
                    0 <= s < self.lvl(j).orders@.len() && (#[trigger] self.lvl(j).orders@[s])
                        is Some implies {
                    let sid = self.lvl(j).orders@[s].unwrap();
                    &&& self.orders@.contains_key(sid)
                    &&& self.orders@[sid].price_level_cursor == j
                    &&& self.orders@[sid].order_cursor == s
                } by {
                    let sid = pre.lvl(j).orders@[s].unwrap();
                    assert(pre.orders@.contains_key(sid));
                    assert(sid != id);
                }
            }
        }

        // freed indices all pointed away from the touched level
        assert forall|f: int| 0 <= f < self.free_indices@.len() implies {
            let fi = (#[trigger] self.free_indices@[f]) as int;
            &&& fi < self.price_levels@.len()
            &&& self.price_levels@[fi] is None
        } by {
            let fi = pre.free_indices@[f] as int;
            assert(pre.price_levels@[fi] is None);
            assert(fi != i);
        }

        // counting
        lemma_total_active_update(pre.price_levels@, i, Some(l_new));
        assert(level_total(Some(l_new)) == level_total(pre.price_levels@[i]) + 1);
        assert(self.orders@.dom().len() == pre.orders@.dom().len() + 1);
        assert(self.wf_total());

        assert(self.side_refs(side)[k].price == order.price);
    }

    /// Resting an order onto a freshly created level preserves the
    /// book invariant: the level is live at a previously dead (or
    /// brand-new) arena index and its side map gained exactly one
    /// reference, in price order.
    #[verifier::rlimit(50)]
    proof fn lemma_rested_new_level(
        self,
        pre: OrderBook,
        order: Order,
        i: int,
        l_new: PriceLevel,
        ip: int,
        use_free: bool,
    )
        requires
            pre.wf(),
            order.wf(),
            order.remaining_quantity > 0,
            !pre.orders@.contains_key(order.order_id),
            forall|k: int|
                0 <= k < pre.side_refs(order.side).len() ==> (#[trigger] pre.side_refs(
                    order.side,
                )[k]).price != order.price,
            0 <= i <= usize::MAX,
            l_new.price == order.price,
            l_new.orders@ == Seq::<Option<OrderId>>::empty().push(Some(order.order_id)),
            l_new.volume == order.remaining_quantity,
            l_new.order_count == 1,
            l_new.wf(),
            active_ids(l_new.orders@) == Seq::<OrderId>::empty().push(order.order_id),
            use_free ==> pre.free_indices@.len() > 0 && i == pre.free_indices@[0] as int
                && self.free_indices@ == pre.free_indices@.subrange(
                1,
                pre.free_indices@.len() as int,
            ) && self.price_levels@ == pre.price_levels@.update(i, Some(l_new)),
            !use_free ==> i == pre.price_levels@.len() && self.free_indices@
                == pre.free_indices@ && self.price_levels@ == pre.price_levels@.push(
                Some(l_new),
            ),
            self.orders@ == pre.orders@.insert(
                order.order_id,
                (OrderEntry { order: order, order_cursor: 0, price_level_cursor: i as usize }),
            ),
            0 <= ip <= pre.side_refs(order.side).len(),
            forall|k: int|
                0 <= k < ip ==> price_better(
                    order.side,
                    (#[trigger] pre.side_refs(order.side)[k]).price,
                    order.price,
                ),
            forall|k: int|
                ip <= k < pre.side_refs(order.side).len() ==> price_better(
                    order.side,
                    order.price,
                    (#[trigger] pre.side_refs(order.side)[k]).price,
                ),
            self.side_refs(order.side) == pre.side_refs(order.side).insert(
                ip,
                (PriceLevelRef { index: i as usize, price: order.price }),
            ),
            self.side_refs(opp(order.side)) == pre.side_refs(opp(order.side)),
        ensures
            self.wf(),
            self.orders@.dom() == pre.orders@.dom().insert(order.order_id),
            self.has_level(order.side, order.price),
    {
        let id = order.order_id;
        let side = order.side;
        let newref = PriceLevelRef { index: i as usize, price: order.price };
        let s_old = pre.side_refs(side);
        let s_new = self.side_refs(side);
        s_old.insert_ensures(ip, newref);
        assert(pre.wf_side(side));
        assert(pre.wf_side(opp(side)));

        assert(pre.wf_free());
        if use_free {
            assert(pre.free_indices@[0] == pre.free_indices@[0]);
            assert(pre.price_levels@[i] is None);
        }
        assert(self.live(i) && self.lvl(i) == l_new);
        assert(forall|j: int|
            #[trigger] pre.live(j) ==> j != i);
        assert(forall|j: int| j != i && 0 <= j < pre.price_levels@.len() ==> #[trigger] self.price_levels@[j] == pre.price_levels@[j]);
        assert(forall|j: int| j != i ==> #[trigger] self.live(j) == pre.live(j));
        assert(forall|j: int| j != i && pre.live(j) ==> #[trigger] self.lvl(j) == pre.lvl(j));
        assert(self.orders@.dom() =~= pre.orders@.dom().insert(id));

        // sortedness of the grown side
        assert forall|a: int, b: int|
            0 <= a < b < s_new.len() implies price_better(side, s_new[a].price, s_new[b].price) by {
            if b < ip {
                assert(s_new[a] == s_old[a] && s_new[b] == s_old[b]);
            } else if a < ip && b == ip {
                assert(s_new[a] == s_old[a]);
            } else if a < ip && b > ip {
                assert(s_new[a] == s_old[a] && s_new[b] == s_old[b - 1]);
            } else if a == ip {
                assert(s_new[b] == s_old[b - 1]);
            } else {
                assert(s_new[a] == s_old[a - 1] && s_new[b] == s_old[b - 1]);
            }
        }
        // untouched side keeps its order
        assert(refs_sorted(self.side_refs(opp(side)), opp(side)));
        assert(refs_sorted(s_new, side));

        // every reference of the grown side is valid
        assert forall|kk: int| 0 <= kk < s_new.len() implies self.ref_ok(
            #[trigger] s_new[kk],
        ) by {
            if kk == ip {
                assert(s_new[kk] == newref);
            } else {
                let r = if kk < ip { s_old[kk] } else { s_old[kk - 1] };
                assert(s_new[kk] == r);
                assert(pre.ref_ok(r));
                assert(r.index as int != i);
            }
        }
        // and of the untouched side
        assert forall|kk: int|
            0 <= kk < self.side_refs(opp(side)).len() implies self.ref_ok(
            #[trigger] self.side_refs(opp(side))[kk],
        ) by {
            let r = pre.side_refs(opp(side))[kk];
            assert(pre.ref_ok(r));
            assert(r.index as int != i);
        }
        assert(self.wf_side(side));
        assert(self.wf_side(opp(side)));
        match side {
            Side::Buy => {
                assert(self.wf_side(Side::Buy));
                assert(self.wf_side(Side::Sell));
            },
            Side::Sell => {
                assert(self.wf_side(Side::Buy));
                assert(self.wf_side(Side::Sell));
            },
        }

        // the two sides still meet nowhere in the arena
        assert forall|k1: int, k2: int|
            0 <= k1 < self.bids@.len() && 0 <= k2 < self.asks@.len() implies (#[trigger] self.bids@[k1]).index
            != (#[trigger] self.asks@[k2]).index by {
            let (kb, ka) = (k1, k2);
            match side {
                Side::Buy => {
                    let r2 = pre.asks@[ka];
                    assert(self.asks@[ka] == r2);
                    assert(pre.ref_ok(r2));
                    assert(r2.index as int != i);
                    if kb == ip {
                        assert(self.bids@[kb] == newref);
                    } else {
                        let r1 = if kb < ip { pre.bids@[kb] } else { pre.bids@[kb - 1] };
                        assert(self.bids@[kb] == r1);
                    }
                },
                Side::Sell => {
                    let r1 = pre.bids@[kb];
                    assert(self.bids@[kb] == r1);
                    assert(pre.ref_ok(r1));
                    assert(r1.index as int != i);
                    if ka == ip {
                        assert(self.asks@[ka] == newref);
                    } else {
                        let r2 = if ka < ip { pre.asks@[ka] } else { pre.asks@[ka - 1] };
                        assert(self.asks@[ka] == r2);
                    }
                },
            }
        }

        // the order table
        assert forall|id2: OrderId| #[trigger]
            self.orders@.contains_key(id2) implies self.entry_ok(id2) by {
            if id2 == id {
                assert(l_new.orders@[0] == Some(id));
                assert(self.lvl(i) == l_new);
                assert(self.orders@[id] == (OrderEntry {
                    order: order,
                    order_cursor: 0,
                    price_level_cursor: i as usize,
                }));
                assert(s_new[ip] == newref);
                assert(self.side_refs(side).contains(newref));
            } else {
                assert(pre.orders@.contains_key(id2));
                assert(pre.entry_ok(id2));
                let e2 = pre.orders@[id2];
                assert(pre.live(e2.price_level_cursor as int));
                assert(e2.price_level_cursor as int != i);
                assert(self.lvl(e2.price_level_cursor as int) == pre.lvl(
                    e2.price_level_cursor as int,
                ));
                let oldref = PriceLevelRef {
                    index: e2.price_level_cursor,
                    price: e2.order.price,
                };
                if e2.order.side == side {
                    assert(pre.side_refs(side).contains(oldref));
                    let kk = choose|kk: int|
                        0 <= kk < s_old.len() && s_old[kk] == oldref;
                    if kk < ip {
                        assert(s_new[kk] == oldref);
                    } else {
                        assert(s_new[kk + 1] == oldref);
                    }
                    assert(self.side_refs(side).contains(oldref));
                } else {
                    assert(e2.order.side == opp(side)) by {
                        match side {
                            Side::Buy => {},
                            Side::Sell => {},
                        }
                    }
                    assert(self.side_refs(e2.order.side) == pre.side_refs(e2.order.side));
                }
            }
        }

        // the levels
        assert forall|j: int| #[trigger]
            self.live(j) implies self.slots_ok(j) && self.level_ok(j) by {
            if j == i {
                assert forall|s: int|
                    0 <= s < l_new.orders@.len() && (#[trigger] l_new.orders@[s]) is Some implies {
                    let sid = l_new.orders@[s].unwrap();
                    &&& self.orders@.contains_key(sid)
                    &&& self.orders@[sid].price_level_cursor == j
                    &&& self.orders@[sid].order_cursor == s
                } by {
                    assert(s == 0);
                }
                assert(active_ids(l_new.orders@).drop_last() =~= Seq::<OrderId>::empty());
                assert(active_ids(l_new.orders@).last() == id);
                assert(sum_rem(Seq::<OrderId>::empty(), self.orders@) == 0);
                assert(sum_rem(active_ids(l_new.orders@), self.orders@)
                    == self.orders@[id].order.remaining_quantity);
                assert(self.level_ok(i));
            } else {
                assert(pre.live(j));
                assert(pre.slots_ok(j) && pre.level_ok(j));
                assert(self.lvl(j) == pre.lvl(j));
                let act = active_ids(pre.lvl(j).orders@);
                assert forall|p: int| 0 <= p < act.len() implies self.orders@[#[trigger] act[p]].order.remaining_quantity
                    == pre.orders@[act[p]].order.remaining_quantity by {
                    lemma_active_from_slot(pre.lvl(j).orders@, p);
                    let sk = choose|sk: int|
                        0 <= sk < pre.lvl(j).orders@.len() && pre.lvl(j).orders@[sk] == Some(
                            act[p],
                        );
                    assert(pre.orders@.contains_key(act[p]));
                }
                lemma_sum_rem_congruence(act, pre.orders@, self.orders@);
                assert forall|s: int|
                    0 <= s < self.lvl(j).orders@.len() && (#[trigger] self.lvl(j).orders@[s])
                        is Some implies {
                    let sid = self.lvl(j).orders@[s].unwrap();
                    &&& self.orders@.contains_key(sid)
                    &&& self.orders@[sid].price_level_cursor == j
                    &&& self.orders@[sid].order_cursor == s
                } by {
                    let sid = pre.lvl(j).orders@[s].unwrap();
                    assert(pre.orders@.contains_key(sid));
                    assert(sid != id);
                }
            }
        }

        // freed indices
        assert forall|f: int| 0 <= f < self.free_indices@.len() implies {
            let fi = (#[trigger] self.free_indices@[f]) as int;
            &&& fi < self.price_levels@.len()
            &&& self.price_levels@[fi] is None
        } by {
            if use_free {
                assert(self.free_indices@[f] == pre.free_indices@[f + 1]);
                assert(pre.free_indices@[f + 1] != pre.free_indices@[0]);
            } else {
                assert(self.free_indices@[f] == pre.free_indices@[f]);
                assert((pre.free_indices@[f] as int) < pre.price_levels@.len());
            }
        }
        assert forall|f1: int, f2: int|
            0 <= f1 < f2 < self.free_indices@.len() implies self.free_indices@[f1]
            != self.free_indices@[f2] by {
            if use_free {
                assert(self.free_indices@[f1] == pre.free_indices@[f1 + 1]);
                assert(self.free_indices@[f2] == pre.free_indices@[f2 + 1]);
            }
        }

        // counting
        if use_free {
            lemma_total_active_update(pre.price_levels@, i, Some(l_new));
        } else {
            lemma_total_active_push(pre.price_levels@, Some(l_new));
        }
        assert(level_total(Some(l_new)) == 1);
        assert(self.orders@.dom().len() == pre.orders@.dom().len() + 1);
        assert(self.wf_total());

        assert(self.side_refs(side)[ip].price == order.price);
    }

    /// Rest an order in the book: append it to the level at its
    /// price on its own side, creating the level first when none is
    /// there (reusing a freed arena index if one waits), and record
    /// the order in the global table.
    #[verifier::rlimit(50)]
    fn add_order_to_book(&mut self, order: &Order)
        requires
            old(self).wf(),
            order.wf(),
            order.remaining_quantity > 0,
            !old(self).orders@.contains_key(order.order_id),
            forall|k: int|
                0 <= k < old(self).side_refs(order.side).len() && (#[trigger] old(self).side_refs(
                    order.side,
                )[k]).price == order.price ==> old(self).lvl(
                    old(self).side_refs(order.side)[k].index as int,
                ).volume + order.remaining_quantity <= Quantity::MAX,
        ensures
            final(self).wf(),
            final(self).orders@.contains_key(order.order_id),
            final(self).orders@[order.order_id].order == *order,
            final(self).orders@.dom() == old(self).orders@.dom().insert(order.order_id),
            forall|id: OrderId|
                #[trigger] old(self).orders@.contains_key(id) && id != order.order_id
                    ==> final(self).orders@.contains_key(id)
                    && final(self).orders@[id] == old(self).orders@[id],
            final(self).side_refs(opp(order.side)) == old(self).side_refs(opp(order.side)),
            final(self).has_level(order.side, order.price),
            final(self).price_levels@.len() == old(self).price_levels@.len() + (
            if old(self).has_level(order.side, order.price) || old(self).free_indices@.len() > 0 {
                0int
            } else {
                1int
            }),
            final(self).free_indices@.len() == old(self).free_indices@.len() - (
            if !old(self).has_level(order.side, order.price) && old(self).free_indices@.len() > 0 {
                1int
            } else {
                0int
            }),
    {
        let ghost pre = *old(self);
        let side = order.side;
        let id = order.order_id;
        let pos = match side {
            Side::Buy => Self::find_level_pos(&self.bids, order.price),
            Side::Sell => Self::find_level_pos(&self.asks, order.price),
        };
        match pos {
            Some(k) => {
                let index = match side {
                    Side::Buy => self.bids[k].index,
                    Side::Sell => self.asks[k].index,
                };
                let ghost i = index as int;
                let ghost l_old = pre.lvl(i);
                proof {
                    assert(pre.ref_ok(pre.side_refs(side)[k as int]));
                    assert(pre.live(i));
                }
                let taken = self.price_levels[index].take();
                let mut level = match taken {
                    Some(l) => l,
                    None => unreached(),
                };
                let cursor = level.orders.len();
                self.orders.insert(id, OrderEntry {
                    order: *order,
                    order_cursor: cursor,
                    price_level_cursor: index,
                });
                let table_len = self.orders.len();
                proof {
                    // the level has room for one more active slot
                    assert(self.orders@.dom() =~= pre.orders@.dom().insert(id));
                    assert(self.orders@.dom().len() == pre.orders@.dom().len() + 1);
                    lemma_level_le_total(pre.price_levels@, i);
                    assert(level.order_count < usize::MAX);
                    // the caller guaranteed the volume fits
                    assert(pre.side_refs(side)[k as int].price == order.price);
                    assert(level.volume + order.remaining_quantity <= Quantity::MAX);
                    // the id rests nowhere in the level yet
                    assert forall|a: int|
                        0 <= a < level.orders@.len() implies level.orders@[a] != Some(id) by {
                        if level.orders@[a] is Some {
                            assert(pre.slots_ok(i));
                            assert(pre.orders@.contains_key(level.orders@[a].unwrap()));
                        }
                    }
                }
                let c2 = level.add_order(order);
                let ghost l_new = level;
                self.price_levels.set(index, Some(level));
                proof {
                    assert(self.price_levels@ =~= pre.price_levels@.update(i, Some(l_new)));
                    self.lemma_rested_in_level(pre, *order, i, cursor as int, l_old, l_new, k as int);
                }
            },
            None => {
                let use_free = self.free_indices.len() > 0;
                let index = if use_free {
                    match self.free_indices.pop_front() {
                        Some(f) => f,
                        None => unreached(),
                    }
                } else {
                    self.price_levels.len()
                };
                let ghost i = index as int;
                let mut level = PriceLevel::new(order.price, self.level_capacity);
                self.orders.insert(id, OrderEntry {
                    order: *order,
                    order_cursor: 0,
                    price_level_cursor: index,
                });
                let c2 = level.add_order(order);
                let ghost l_new = level;
                if use_free {
                    self.price_levels.set(index, Some(level));
                } else {
                    self.price_levels.push(Some(level));
                }
                let ip = match side {
                    Side::Buy => {
                        let ip = Self::find_insert_pos(&self.bids, Side::Buy, order.price);
                        self.bids.insert(ip, PriceLevelRef { index, price: order.price });
                        ip
                    },
                    Side::Sell => {
                        let ip = Self::find_insert_pos(&self.asks, Side::Sell, order.price);
                        self.asks.insert(ip, PriceLevelRef { index, price: order.price });
                        ip
                    },
                };
                proof {
                    assert(l_new.orders@ =~= Seq::<Option<OrderId>>::empty().push(
                        Some(order.order_id),
                    ));
                    assert(active_ids(l_new.orders@) =~= Seq::<OrderId>::empty().push(
                        order.order_id,
                    ));
                    self.lemma_rested_new_level(pre, *order, i, l_new, ip as int, use_free);
                }
            },
        }
    }

    /// For every live price level of a well-formed book, the
    /// recorded volume equals the exact sum of the remaining
    /// quantities of the orders resting there, and the order count
    /// counts exactly the active slots. Every book operation
    /// preserves `wf`, so this holds in every reachable state.
    pub proof fn lemma_level_volume_exact(self, i: int)
        requires
            self.wf(),
            self.live(i),
        ensures
            self.lvl(i).volume == sum_rem(active_ids(self.lvl(i).orders@), self.orders@),
            self.lvl(i).order_count == active_ids(self.lvl(i).orders@).len(),
    {
        assert(self.level_ok(i));
        assert(self.lvl(i).wf());
    }

    /// The global order table and the arena agree: the table holds
    /// exactly as many orders as there are active slots across all
    /// live price levels. Every book operation preserves `wf`, so
    /// this holds in every reachable state.
    pub proof fn lemma_order_table_size(self)
        requires
            self.wf(),
        ensures
            self.orders@.dom().len() == total_active(self.price_levels@),
    {
    }

    /// Tear down the empty level at `index`: drop its reference from
    /// `side`'s map, clear its arena slot, and queue the index for
    /// reuse.
    fn remove_empty_price_level(&mut self, price: Price, side: Side, index: usize)
        requires
            old(self).wf_except_teardown(side, price, index as int),
        ensures
            final(self).wf(),
            final(self).orders@ == old(self).orders@,
            final(self).price_levels@ == old(self).price_levels@.update(index as int, None),
            final(self).free_indices@ == old(self).free_indices@.push(index),
            final(self).side_refs(opp(side)) == old(self).side_refs(opp(side)),
            exists|k: int|
                0 <= k < old(self).side_refs(side).len() && old(self).side_refs(side)[k]
                    == (PriceLevelRef { index, price }) && final(self).side_refs(side) == old(
                    self,
                ).side_refs(side).remove(k),
            forall|kk: int|
                0 <= kk < final(self).side_refs(side).len() ==> (#[trigger] final(self).side_refs(
                    side,
                )[kk]).price != price,
    {
        let ghost pre = *old(self);
        let pos = match side {
            Side::Buy => Self::find_level_pos(&self.bids, price),
            Side::Sell => Self::find_level_pos(&self.asks, price),
        };
        let k = match pos {
            Some(k) => k,
            None => {
                proof {
                    let kw = choose|kw: int|
                        0 <= kw < pre.side_refs(side).len() && pre.side_refs(side)[kw]
                            == (PriceLevelRef { index, price });
                    assert(pre.side_refs(side)[kw].price == price);
                }
                unreached()
            },
        };
        proof {
            // the found position holds exactly the reference of this
            // level: prices are unique within a side
            let kw = choose|kw: int|
                0 <= kw < pre.side_refs(side).len() && pre.side_refs(side)[kw]
                    == (PriceLevelRef { index, price });
            if k as int != kw {
                if (k as int) < kw {
                    assert(price_better(side, pre.side_refs(side)[k as int].price, pre.side_refs(side)[kw].price));
                } else {
                    assert(price_better(side, pre.side_refs(side)[kw].price, pre.side_refs(side)[k as int].price));
                }
            }
            assert(pre.side_refs(side)[k as int] == (PriceLevelRef { index, price }));
        }
        match side {
            Side::Buy => {
                self.bids.remove(k);
            },
            Side::Sell => {
                self.asks.remove(k);
            },
        }
        self.price_levels.set(index, None);
        self.free_indices.push_back(index);
        proof {
            self.lemma_teardown(pre, side, price, index as int, k as int);
        }
    }

    /// One matching step: trade the incoming order against the
    /// front resting order of the best opposing level. The trade
    /// takes the resting side's price; quantity is the smaller of
    /// the two remainders. A fully filled resting order leaves the
    /// book, and its level is torn down when it empties.
    #[verifier::rlimit(75)]
    fn match_at_price_level(
        &mut self,
        best_price: Price,
        incoming_order: &Order,
        max_quantity: Quantity,
    ) -> (t: Trade)
        requires
            old(self).wf(),
            max_quantity > 0,
            !old(self).orders@.contains_key(incoming_order.order_id),
            old(self).side_refs(opp(incoming_order.side)).len() > 0,
            best_price == old(self).side_refs(opp(incoming_order.side))[0].price,
        ensures
            final(self).wf(),
            ({
                let oside = opp(incoming_order.side);
                let i = old(self).side_refs(oside)[0].index as int;
                let fid = active_ids(old(self).lvl(i).orders@)[0];
                let fe = old(self).orders@[fid];
                let q = if max_quantity < fe.order.remaining_quantity {
                    max_quantity
                } else {
                    fe.order.remaining_quantity
                };
                &&& old(self).orders@.contains_key(fid)
                &&& fid != incoming_order.order_id
                &&& t.price == best_price
                &&& t.quantity == q
                &&& q > 0
                &&& q <= max_quantity
                &&& (incoming_order.side == Side::Buy ==> t.bid_order_id
                    == incoming_order.order_id && t.ask_order_id == fid)
                &&& (incoming_order.side == Side::Sell ==> t.ask_order_id
                    == incoming_order.order_id && t.bid_order_id == fid)
                &&& final(self).side_refs(incoming_order.side) == old(self).side_refs(
                    incoming_order.side,
                )
                &&& (forall|j: int|
                    old(self).live(j) && j != i ==> #[trigger] final(self).live(j)
                        && final(self).lvl(j) == old(self).lvl(j))
                &&& (forall|id: OrderId|
                    #[trigger] final(self).orders@.contains_key(id)
                        ==> old(self).orders@.contains_key(id))
                &&& (q < fe.order.remaining_quantity ==> {
                    &&& final(self).orders@ == old(self).orders@.insert(fid, (OrderEntry {
                        order: (Order {
                            executed_quantity: (fe.order.executed_quantity + q) as Quantity,
                            remaining_quantity: (fe.order.remaining_quantity - q) as Quantity,
                            status: Status::PartiallyFilled,
                            ..fe.order
                        }),
                        ..fe
                    }))
                    &&& final(self).side_refs(oside) == old(self).side_refs(oside)
                    &&& final(self).free_indices@ == old(self).free_indices@
                    &&& final(self).price_levels@.len() == old(self).price_levels@.len()
                    &&& final(self).live(i)
                    &&& final(self).lvl(i).orders@ == old(self).lvl(i).orders@
                    &&& final(self).lvl(i).volume == old(self).lvl(i).volume - q
                    &&& final(self).lvl(i).order_count == old(self).lvl(i).order_count
                })
                &&& (q == fe.order.remaining_quantity ==> {
                    &&& final(self).orders@ == old(self).orders@.remove(fid)
                    &&& (old(self).lvl(i).order_count > 1 ==> {
                        &&& final(self).side_refs(oside) == old(self).side_refs(oside)
                        &&& final(self).free_indices@ == old(self).free_indices@
                        &&& final(self).price_levels@.len() == old(self).price_levels@.len()
                        &&& final(self).live(i)
                        &&& final(self).lvl(i).volume == old(self).lvl(i).volume - q
                        &&& final(self).lvl(i).order_count == old(self).lvl(i).order_count - 1
                        &&& active_ids(final(self).lvl(i).orders@) == active_ids(
                            old(self).lvl(i).orders@,
                        ).remove(0)
                    })
                    &&& (old(self).lvl(i).order_count == 1 ==> {
                        &&& old(self).lvl(i).volume == q
                        &&& final(self).side_refs(oside) == old(self).side_refs(oside).remove(0)
                        &&& final(self).price_levels@ == old(self).price_levels@.update(i, None)
                        &&& final(self).free_indices@ == old(self).free_indices@.push(
                            old(self).side_refs(oside)[0].index,
                        )
                    })
                })
            }),
    {
        let ghost pre = *old(self);
        let ghost oside = opp(incoming_order.side);
        let r0 = match incoming_order.side {
            Side::Buy => self.asks[0],
            Side::Sell => self.bids[0],
        };
        let index = r0.index;
        let ghost i = index as int;
        proof {
            match incoming_order.side {
                Side::Buy => {
                    assert(pre.side_refs(oside) == pre.asks@);
                },
                Side::Sell => {
                    assert(pre.side_refs(oside) == pre.bids@);
                },
            }
            assert(pre.side_refs(oside)[0] == r0);
            assert(pre.ref_ok(r0));
            assert(pre.live(i));
            assert(pre.slots_ok(i) && pre.level_ok(i));
        }
        let taken = self.price_levels[index].take();
        let mut level = match taken {
            Some(l) => l,
            None => unreached(),
        };
        let shift = level.get_shift_loc();
        let fid = match level.orders[shift] {
            Some(id) => id,
            None => unreached(),
        };
        let fe = match self.orders.get(&fid) {
            Some(e) => *e,
            None => unreached(),
        };
        proof {
            assert(pre.orders@.contains_key(fid));
            assert(pre.entry_ok(fid));
            assert(fe == pre.orders@[fid]);
            assert(fe.price_level_cursor == index);
            assert(fe.order_cursor == shift);
            assert(fid == active_ids(pre.lvl(i).orders@)[0]);
            assert(fe.order.wf());
            assert(fe.order.remaining_quantity > 0);
        }
        let trade_quantity = if max_quantity < fe.order.remaining_quantity {
            max_quantity
        } else {
            fe.order.remaining_quantity
        };
        let trade = match incoming_order.side {
            Side::Buy => Trade::new(incoming_order.order_id, fid, best_price, trade_quantity),
            Side::Sell => Trade::new(fid, incoming_order.order_id, best_price, trade_quantity),
        };
        if trade_quantity == fe.order.remaining_quantity {
            // the resting order is fully filled and leaves the book
            self.orders.remove(&fid);
            proof {
                lemma_active_distinct(level.orders@);
                lemma_active_clear(level.orders@, shift as int);
                lemma_sum_rem_bound(
                    active_ids(level.orders@),
                    pre.orders@,
                    active_count(level.orders@.take(shift as int)) as int,
                );
                assert(fe.order.remaining_quantity <= level.volume);
            }
            level.remove_order(shift, &fe.order);
            let empty = level.order_count == 0;
            let ghost l_new = level;
            self.price_levels.set(index, Some(level));
            proof {
                assert(self.price_levels@ =~= pre.price_levels@.update(i, Some(l_new)));
                self.lemma_slot_cleared(pre, fid, l_new);
                assert(active_ids(l_new.orders@) == active_ids(pre.lvl(i).orders@).remove(0));
                if pre.lvl(i).order_count == 1 {
                    let act = active_ids(pre.lvl(i).orders@);
                    assert(pre.lvl(i).wf());
                    assert(act.len() == 1);
                    assert(act.drop_last() =~= Seq::<OrderId>::empty());
                    assert(act.last() == act[0]);
                    assert(sum_rem(act, pre.orders@) == fe.order.remaining_quantity);
                    assert(pre.lvl(i).volume == trade_quantity);
                }
                // the resting order lay on the opposing side, at the
                // best price
                assert(fe.order.price == best_price);
                assert(fe.order.side == oside) by {
                    if fe.order.side != oside {
                        let theref = PriceLevelRef {
                            index: fe.price_level_cursor,
                            price: fe.order.price,
                        };
                        assert(pre.side_refs(fe.order.side).contains(theref));
                        let kw = choose|kw: int|
                            0 <= kw < pre.side_refs(fe.order.side).len() && pre.side_refs(
                                fe.order.side,
                            )[kw] == theref;
                        match incoming_order.side {
                            Side::Buy => {
                                assert(pre.side_refs(Side::Buy)[kw] == theref);
                                assert(pre.bids@[kw].index != pre.asks@[0].index);
                            },
                            Side::Sell => {
                                assert(pre.side_refs(Side::Sell)[kw] == theref);
                                assert(pre.bids@[0].index != pre.asks@[kw].index);
                            },
                        }
                    }
                }
            }
            if empty {
                let level_side = match incoming_order.side {
                    Side::Buy => Side::Sell,
                    Side::Sell => Side::Buy,
                };
                let ghost mid = *self;
                self.remove_empty_price_level(best_price, level_side, index);
                proof {
                    assert(self.price_levels@ =~= pre.price_levels@.update(i, None));
                    let k = choose|k: int|
                        0 <= k < mid.side_refs(oside).len() && mid.side_refs(oside)[k]
                            == (PriceLevelRef { index, price: best_price }) && self.side_refs(
                            oside,
                        ) == mid.side_refs(oside).remove(k);
                    if k != 0 {
                        assert(price_better(
                            oside,
                            pre.side_refs(oside)[0].price,
                            pre.side_refs(oside)[k].price,
                        ));
                    }
                    assert(self.side_refs(oside) == pre.side_refs(oside).remove(0));
                }
            }
        } else {
            // partial fill: the resting order stays at the front
            // with reduced remainder
            let mut updated_order = fe.order;
            proof {
                assert(pre.level_ok(i));
                lemma_active_clear(level.orders@, shift as int);
                lemma_sum_rem_bound(
                    active_ids(level.orders@),
                    pre.orders@,
                    active_count(level.orders@.take(shift as int)) as int,
                );
                assert(fe.order.remaining_quantity <= level.volume);
            }
            updated_order.executed_quantity = updated_order.executed_quantity + trade_quantity;
            updated_order.remaining_quantity = updated_order.remaining_quantity - trade_quantity;
            updated_order.status = Status::PartiallyFilled;
            level.update_order(&fe.order, &updated_order);
            let ghost l_new = level;
            self.price_levels.set(index, Some(level));
            self.orders.insert(fid, OrderEntry {
                order: updated_order,
                order_cursor: fe.order_cursor,
                price_level_cursor: fe.price_level_cursor,
            });
            proof {
                assert(self.price_levels@ =~= pre.price_levels@.update(i, Some(l_new)));
                self.lemma_front_partial(pre, fid, trade_quantity, l_new);
            }
        }
        trade
    }

    /// Match an incoming order against the opposing side, repeating
    /// single steps while quantity remains, the opposing side is
    /// non-empty, and its best price is eligible (a market order is
    /// always eligible). The incoming order's own side of the book
    /// is never touched, and the incoming order itself never enters
    /// the table here.
    #[verifier::rlimit(75)]
    fn match_order(&mut self, order: &Order) -> (trades: Vec<Trade>)
        requires
            old(self).wf(),
            order.wf(),
            !old(self).orders@.contains_key(order.order_id),
        ensures
            final(self).wf(),
            OrderBook::match_post(*old(self), *final(self), *order, trades@),
    {
        let ghost pre = *old(self);
        let ghost pre_flat = pre.flat_ids(pre.side_refs(opp(order.side)));
        let mut trades: Vec<Trade> = Vec::new();
        let order_price = order.price;
        let mut remaining_quantity = order.remaining_quantity;
        let order_type = order.order_type;

        proof {
            assert(pre_flat.take(0) =~= Seq::<OrderId>::empty());
            assert(pre_flat.skip(0) =~= pre_flat);
        }
        while remaining_quantity > 0
            invariant
                self.wf(),
                order.wf(),
                order_price == order.price,
                order_type == order.order_type,
                remaining_quantity <= order.remaining_quantity,
                sum_qty(trades@) + remaining_quantity == order.remaining_quantity,
                !self.orders@.contains_key(order.order_id),
                !pre.orders@.contains_key(order.order_id),
                forall|id: OrderId|
                    #[trigger] self.orders@.contains_key(id) ==> pre.orders@.contains_key(id),
                self.side_refs(order.side) == pre.side_refs(order.side),
                self.price_levels@.len() == pre.price_levels@.len(),
                self.free_indices@.len() >= pre.free_indices@.len(),
                self.avail_qty(*order) == pre.avail_qty(*order) - sum_qty(trades@),
                forall|k: int|
                    0 <= k < pre.side_refs(order.side).len() ==> {
                        let r = #[trigger] pre.side_refs(order.side)[k];
                        self.live(r.index as int) && self.lvl(r.index as int) == pre.lvl(
                            r.index as int,
                        )
                    },
                forall|n: int|
                    0 <= n < trades@.len() ==> {
                        let t = #[trigger] trades@[n];
                        &&& t.quantity > 0
                        &&& (order.side == Side::Buy ==> t.bid_order_id == order.order_id)
                        &&& (order.side == Side::Sell ==> t.ask_order_id == order.order_id)
                        &&& (order.order_type != OrderType::MarketOrder ==> crosses(
                            order.side,
                            order.price,
                            t.price,
                        ))
                    },
                forall|n: int|
                    0 <= n < trades@.len() - 1 ==> !price_better(
                        opp(order.side),
                        (#[trigger] trades@[n + 1]).price,
                        trades@[n].price,
                    ),
                trades@.len() > 0 && self.side_refs(opp(order.side)).len() > 0 ==> !price_better(
                    opp(order.side),
                    self.side_refs(opp(order.side))[0].price,
                    trades@.last().price,
                ),
                forall|n: int|
                    0 <= n < trades@.len() ==> pre.orders@.contains_key(resting_id(
                        *order,
                        #[trigger] trades@[n],
                    )),
                forall|n: int|
                    0 <= n < trades@.len() && (remaining_quantity > 0 || n < trades@.len() - 1)
                        ==> !self.orders@.contains_key(resting_id(*order, #[trigger] trades@[n])),
                forall|n1: int, n2: int|
                    0 <= n1 < n2 < trades@.len() ==> resting_id(*order, #[trigger] trades@[n1])
                        != resting_id(*order, #[trigger] trades@[n2]),
                pre_flat == pre.flat_ids(pre.side_refs(opp(order.side))),
                trades@.len() as int <= pre_flat.len(),
                OrderBook::trade_rids(*order, trades@) == pre_flat.take(trades@.len() as int),
                remaining_quantity > 0 ==> self.flat_ids(self.side_refs(opp(order.side)))
                    == pre_flat.skip(trades@.len() as int),
            ensures
                self.wf(),
                sum_qty(trades@) + remaining_quantity == order.remaining_quantity,
                !self.orders@.contains_key(order.order_id),
                self.price_levels@.len() == pre.price_levels@.len(),
                self.free_indices@.len() >= pre.free_indices@.len(),
                self.avail_qty(*order) == pre.avail_qty(*order) - sum_qty(trades@),
                forall|id: OrderId|
                    #[trigger] self.orders@.contains_key(id) ==> pre.orders@.contains_key(id),
                self.side_refs(order.side) == pre.side_refs(order.side),
                forall|k: int|
                    0 <= k < pre.side_refs(order.side).len() ==> {
                        let r = #[trigger] pre.side_refs(order.side)[k];
                        self.live(r.index as int) && self.lvl(r.index as int) == pre.lvl(
                            r.index as int,
                        )
                    },
                forall|n: int|
                    0 <= n < trades@.len() ==> {
                        let t = #[trigger] trades@[n];
                        &&& t.quantity > 0
                        &&& (order.side == Side::Buy ==> t.bid_order_id == order.order_id)
                        &&& (order.side == Side::Sell ==> t.ask_order_id == order.order_id)
                        &&& (order.order_type != OrderType::MarketOrder ==> crosses(
                            order.side,
                            order.price,
                            t.price,
                        ))
                    },
                forall|n: int|
                    0 <= n < trades@.len() - 1 ==> !price_better(
                        opp(order.side),
                        (#[trigger] trades@[n + 1]).price,
                        trades@[n].price,
                    ),
                forall|n: int|
                    0 <= n < trades@.len() ==> pre.orders@.contains_key(resting_id(
                        *order,
                        #[trigger] trades@[n],
                    )),
                forall|n: int|
                    0 <= n < trades@.len() && (remaining_quantity > 0 || n < trades@.len() - 1)
                        ==> !self.orders@.contains_key(resting_id(*order, #[trigger] trades@[n])),
                remaining_quantity == 0 || self.side_refs(opp(order.side)).len() == 0 || (
                order.order_type != OrderType::MarketOrder && !crosses(
                    order.side,
                    order.price,
                    self.side_refs(opp(order.side))[0].price,
                )),
            decreases remaining_quantity,
        {
            let have_best = match order.side {
                Side::Buy => self.asks.len() > 0,
                Side::Sell => self.bids.len() > 0,
            };
            if !have_best {
                proof {
                    match order.side {
                        Side::Buy => {},
                        Side::Sell => {},
                    }
                }
                break;
            }
            let best = match order.side {
                Side::Buy => self.asks[0].price,
                Side::Sell => self.bids[0].price,
            };
            proof {
                match order.side {
                    Side::Buy => {
                        assert(self.side_refs(opp(order.side)) == self.asks@);
                    },
                    Side::Sell => {
                        assert(self.side_refs(opp(order.side)) == self.bids@);
                    },
                }
                assert(best == self.side_refs(opp(order.side))[0].price);
            }
            let crossing = match order.side {
                Side::Buy => order_price >= best,
                Side::Sell => order_price <= best,
            };
            if !(crossing || order_type == OrderType::MarketOrder) {
                break;
            }
            let ghost before = *self;
            let trade = self.match_at_price_level(best, order, remaining_quantity);
            proof {
                let i = before.side_refs(opp(order.side))[0].index as int;
                assert forall|k: int|
                    0 <= k < pre.side_refs(order.side).len() implies {
                    let r = #[trigger] pre.side_refs(order.side)[k];
                    self.live(r.index as int) && self.lvl(r.index as int) == pre.lvl(
                        r.index as int,
                    )
                } by {
                    let r = pre.side_refs(order.side)[k];
                    assert(before.side_refs(order.side)[k] == r);
                    match order.side {
                        Side::Buy => {
                            assert(before.bids@[k].index != before.asks@[0].index);
                        },
                        Side::Sell => {
                            assert(before.bids@[0].index != before.asks@[k].index);
                        },
                    }
                    assert(r.index as int != i);
                    assert(before.live(r.index as int));
                }
                lemma_sum_qty_push(trades@, trade);

                // availability bookkeeping: each step takes exactly
                // the traded quantity out of the eligible volume
                let oside = opp(order.side);
                let refs = before.side_refs(oside);
                assert(marketable(*order, refs[0].price));
                assert(refs[0] == refs.first());
                let fid = active_ids(before.lvl(i).orders@)[0];
                let fe = before.orders@[fid];
                let q = trade.quantity;
                assert(before.wf_side(oside)) by {
                    match order.side {
                        Side::Buy => {},
                        Side::Sell => {},
                    }
                }
                assert forall|k2: int|
                    0 <= k2 < refs.drop_first().len() implies self.lvl(
                    (#[trigger] refs.drop_first()[k2]).index as int,
                ).volume == before.lvl(refs.drop_first()[k2].index as int).volume by {
                    assert(refs.drop_first()[k2] == refs[k2 + 1]);
                    before.lemma_side_indices_distinct(oside, 0, k2 + 1);
                    assert(refs[k2 + 1].index as int != i);
                    assert(before.ref_ok(refs[k2 + 1]));
                    assert(before.live(refs[k2 + 1].index as int));
                }
                before.lemma_avail_congruence(*self, refs.drop_first(), *order);
                if q < fe.order.remaining_quantity || before.lvl(i).order_count > 1 {
                    assert(self.side_refs(oside) == refs);
                    assert(self.lvl(i).volume == before.lvl(i).volume - q);
                    assert(self.avail_qty(*order) == self.lvl(i).volume
                        + self.avail_qty_from(refs.drop_first(), *order));
                } else {
                    assert(before.lvl(i).volume == q);
                    assert(self.side_refs(oside) == refs.remove(0));
                    assert(refs.remove(0) =~= refs.drop_first());
                    assert(self.avail_qty(*order) == self.avail_qty_from(
                        refs.drop_first(),
                        *order,
                    ));
                }
                assert(self.avail_qty(*order) == before.avail_qty(*order) - q);

                // price priority: the new trade is no better than
                // the previous one, and whatever best price is left
                // is no better than the new trade
                assert(trade.price == refs[0].price);
                if trades@.len() > 0 {
                    assert(!price_better(oside, refs[0].price, trades@.last().price));
                }
                assert forall|n: int|
                    0 <= n < trades@.push(trade).len() - 1 implies !price_better(
                    oside,
                    (#[trigger] trades@.push(trade)[n + 1]).price,
                    trades@.push(trade)[n].price,
                ) by {
                    if n + 1 < trades@.len() {
                        assert(trades@.push(trade)[n] == trades@[n]);
                        assert(trades@.push(trade)[n + 1] == trades@[n + 1]);
                    } else {
                        assert(trades@.push(trade)[n] == trades@.last());
                        assert(trades@.push(trade)[n + 1] == trade);
                    }
                }
                if self.side_refs(oside).len() > 0 {
                    if q < fe.order.remaining_quantity || before.lvl(i).order_count > 1 {
                        assert(self.side_refs(oside)[0] == refs[0]);
                    } else {
                        assert(self.side_refs(oside)[0] == refs[1]);
                        assert(price_better(oside, refs[0].price, refs[1].price));
                    }
                    assert(!price_better(oside, self.side_refs(oside)[0].price, trade.price));
                }

                // first-in-first-out across trades: every earlier
                // trade's resting order already left the book, and
                // only the final trade may leave one behind
                assert(resting_id(*order, trade) == fid);
                assert(before.orders@.contains_key(fid));
                assert(pre.orders@.contains_key(fid));
                assert forall|n1: int, n2: int|
                    0 <= n1 < n2 < trades@.push(trade).len() implies resting_id(
                    *order,
                    #[trigger] trades@.push(trade)[n1],
                ) != resting_id(*order, #[trigger] trades@.push(trade)[n2]) by {
                    assert(trades@.push(trade)[n1] == trades@[n1]);
                    if n2 < trades@.len() {
                        assert(trades@.push(trade)[n2] == trades@[n2]);
                    } else {
                        assert(trades@.push(trade)[n2] == trade);
                        assert(!before.orders@.contains_key(resting_id(*order, trades@[n1])));
                    }
                }
                assert forall|n: int|
                    0 <= n < trades@.push(trade).len() && (remaining_quantity - q > 0 || n
                        < trades@.push(trade).len() - 1) implies !self.orders@.contains_key(
                    resting_id(*order, #[trigger] trades@.push(trade)[n]),
                ) by {
                    if n < trades@.len() {
                        assert(trades@.push(trade)[n] == trades@[n]);
                        let rid = resting_id(*order, trades@[n]);
                        assert(!before.orders@.contains_key(rid));
                        assert(rid != fid);
                        if q < fe.order.remaining_quantity {
                            assert(self.orders@ == before.orders@.insert(fid, self.orders@[fid]));
                        }
                    } else {
                        assert(trades@.push(trade)[n] == trade);
                        if q == fe.order.remaining_quantity {
                            assert(!self.orders@.contains_key(fid));
                        } else {
                            assert(q == remaining_quantity);
                        }
                    }
                }

                // service order: the trade consumed exactly the next
                // id of the flattened best-first queue
                let len0 = trades@.len() as int;
                OrderBook::lemma_trade_rids_len(*order, trades@);
                let cur_flat = before.flat_ids(refs);
                assert(cur_flat == pre_flat.skip(len0));
                assert(refs[0] == refs.first());
                assert(cur_flat == active_ids(before.lvl(i).orders@) + before.flat_ids(
                    refs.drop_first(),
                ));
                assert(before.lvl(i).wf());
                assert(active_ids(before.lvl(i).orders@).len() > 0);
                assert(cur_flat[0] == fid);
                assert(pre_flat[len0] == fid);
                OrderBook::lemma_trade_rids_push(*order, trades@, trade);
                assert(pre_flat.take(len0 + 1) =~= pre_flat.take(len0).push(pre_flat[len0]));
                assert(OrderBook::trade_rids(*order, trades@.push(trade)) == pre_flat.take(
                    len0 + 1,
                ));
                assert(len0 + 1 <= pre_flat.len());
                if q == fe.order.remaining_quantity {
                    assert forall|k2: int|
                        0 <= k2 < refs.drop_first().len() implies self.lvl(
                        (#[trigger] refs.drop_first()[k2]).index as int,
                    ).orders@ == before.lvl(refs.drop_first()[k2].index as int).orders@ by {
                        assert(refs.drop_first()[k2] == refs[k2 + 1]);
                        before.lemma_side_indices_distinct(oside, 0, k2 + 1);
                        assert(refs[k2 + 1].index as int != i);
                        assert(before.ref_ok(refs[k2 + 1]));
                        assert(before.live(refs[k2 + 1].index as int));
                    }
                    before.lemma_flat_congruence(*self, refs.drop_first());
                    if before.lvl(i).order_count > 1 {
                        assert(self.side_refs(oside) == refs);
                        assert(active_ids(self.lvl(i).orders@) == active_ids(
                            before.lvl(i).orders@,
                        ).remove(0));
                        assert(self.flat_ids(refs) == active_ids(self.lvl(i).orders@)
                            + self.flat_ids(refs.drop_first()));
                        assert(self.flat_ids(self.side_refs(oside)) =~= cur_flat.drop_first());
                    } else {
                        assert(self.side_refs(oside) == refs.remove(0));
                        assert(refs.remove(0) =~= refs.drop_first());
                        assert(self.flat_ids(self.side_refs(oside)) == self.flat_ids(
                            refs.drop_first(),
                        ));
                        assert(active_ids(before.lvl(i).orders@).len() == 1);
                        assert(self.flat_ids(self.side_refs(oside)) =~= cur_flat.drop_first());
                    }
                    assert(pre_flat.skip(len0).drop_first() =~= pre_flat.skip(len0 + 1));
                    assert(self.flat_ids(self.side_refs(oside)) == pre_flat.skip(len0 + 1));
                }
            }
            remaining_quantity = remaining_quantity - trade.quantity;
            trades.push(trade);
        }
        proof {
            // the pass stopped only once the order was exhausted or
            // the eligible volume was
            self.lemma_avail_nonneg(self.side_refs(opp(order.side)), *order);
            if sum_qty(trades@) != order.remaining_quantity {
                if self.side_refs(opp(order.side)).len() > 0 {
                    assert(!marketable(
                        *order,
                        self.side_refs(opp(order.side))[0].price,
                    ));
                }
                assert(self.avail_qty(*order) == 0);
            }
        }
        trades
    }

    /// Total opposing volume this order could trade against,
    /// capped: any value above `Quantity::MAX` is reported only as
    /// "more than `Quantity::MAX`", which is all the fill-or-kill
    /// decision needs.
    fn get_available_quantity(&self, order: &Order) -> (r: u64)
        requires
            self.wf(),
        ensures
            self.avail_qty(*order) <= Quantity::MAX ==> r as int == self.avail_qty(*order),
            self.avail_qty(*order) > Quantity::MAX ==> r as int > Quantity::MAX,
    {
        let ghost orefs = self.side_refs(opp(order.side));
        let n = match order.side {
            Side::Buy => self.asks.len(),
            Side::Sell => self.bids.len(),
        };
        proof {
            match order.side {
                Side::Buy => {
                    assert(orefs == self.asks@);
                },
                Side::Sell => {
                    assert(orefs == self.bids@);
                },
            }
        }
        let mut sum: u64 = 0;
        let mut k: usize = 0;
        proof {
            assert(orefs.skip(0) =~= orefs);
        }
        while k < n
            invariant_except_break
                sum <= Quantity::MAX as u64,
            invariant
                self.wf(),
                orefs == self.side_refs(opp(order.side)),
                n == orefs.len(),
                k <= n,
                sum as int + self.avail_qty_from(orefs.skip(k as int), *order)
                    == self.avail_qty(*order),
            ensures
                sum as int == self.avail_qty(*order) || (sum as int > Quantity::MAX
                    && self.avail_qty(*order) >= sum as int),
            decreases n - k,
        {
            let r = match order.side {
                Side::Buy => self.asks[k],
                Side::Sell => self.bids[k],
            };
            proof {
                assert(orefs[k as int] == r);
                assert(orefs.skip(k as int).first() == r);
                assert(self.ref_ok(r));
            }
            let crossing = match order.side {
                Side::Buy => order.price >= r.price,
                Side::Sell => order.price <= r.price,
            };
            if !(crossing || order.order_type == OrderType::MarketOrder) {
                proof {
                    assert(!marketable(*order, r.price));
                    assert(self.avail_qty_from(orefs.skip(k as int), *order) == 0);
                }
                break;
            }
            let index = r.index;
            let vol = match &self.price_levels[index] {
                Some(l) => l.volume,
                None => unreached(),
            };
            proof {
                assert(vol == self.lvl(r.index as int).volume);
                assert(orefs.skip(k as int).drop_first() =~= orefs.skip(k as int + 1));
            }
            sum = sum + vol as u64;
            k = k + 1;
            if sum > Quantity::MAX as u64 {
                proof {
                    self.lemma_avail_nonneg(orefs.skip(k as int), *order);
                }
                break;
            }
        }
        sum
    }

    /// Match what can be matched, then rest any unfilled remainder
    /// of the order at its price on its own side.
    fn match_and_add_to_book(&mut self, order: &Order) -> (trades: Vec<Trade>)
        requires
            old(self).wf(),
            order.wf(),
            !old(self).orders@.contains_key(order.order_id),
            forall|k: int|
                0 <= k < old(self).side_refs(order.side).len() && (#[trigger] old(self).side_refs(
                    order.side,
                )[k]).price == order.price ==> old(self).lvl(
                    old(self).side_refs(order.side)[k].index as int,
                ).volume + order.remaining_quantity <= Quantity::MAX,
        ensures
            final(self).wf(),
            OrderBook::limit_post(*old(self), *final(self), *order, trades@),
    {
        let ghost pre = *old(self);
        let trades = self.match_order(order);
        let ghost mid = *self;

        let n = trades.len();
        let mut traded_quantity: Quantity = 0;
        let mut idx: usize = 0;
        while idx < n
            invariant
                n == trades@.len(),
                idx <= n,
                order.wf(),
                traded_quantity as int == sum_qty(trades@.take(idx as int)),
                sum_qty(trades@) <= order.remaining_quantity,
                OrderBook::trades_ok(*order, trades@),
            decreases n - idx,
        {
            proof {
                lemma_sum_qty_take_le(trades@, idx as int + 1);
                assert(trades@.take(idx as int + 1).drop_last() =~= trades@.take(idx as int));
                assert(trades@.take(idx as int + 1).last() == trades@[idx as int]);
            }
            traded_quantity = traded_quantity + trades[idx].quantity;
            idx = idx + 1;
        }
        proof {
            assert(trades@.take(n as int) =~= trades@);
        }
        let remaining_quantity = order.remaining_quantity - traded_quantity;
        if remaining_quantity > 0 {
            let mut remaining_order = *order;
            remaining_order.executed_quantity = order.executed_quantity + traded_quantity;
            remaining_order.remaining_quantity = remaining_quantity;
            if traded_quantity > 0 {
                remaining_order.status = Status::PartiallyFilled;
            }
            proof {
                assert forall|k: int|
                    0 <= k < self.side_refs(remaining_order.side).len() && (#[trigger] self.side_refs(
                        remaining_order.side,
                    )[k]).price == remaining_order.price implies self.lvl(
                    self.side_refs(remaining_order.side)[k].index as int,
                ).volume + remaining_order.remaining_quantity <= Quantity::MAX by {
                    let r = pre.side_refs(order.side)[k];
                    assert(self.side_refs(order.side)[k] == r);
                    assert(self.lvl(r.index as int) == pre.lvl(r.index as int));
                }
            }
            self.add_order_to_book(&remaining_order);
            proof {
                assert forall|n: int|
                    0 <= n < trades@.len() && (sum_qty(trades@) < order.remaining_quantity || n
                        < trades@.len() - 1) implies !self.orders@.contains_key(resting_id(
                    *order,
                    #[trigger] trades@[n],
                )) by {
                    let rid = resting_id(*order, trades@[n]);
                    assert(pre.orders@.contains_key(rid));
                    assert(rid != order.order_id);
                    assert(!mid.orders@.contains_key(rid));
                }
            }
        }
        trades
    }

    /// A market order matches at any price and never rests; the
    /// always-eligible rule in the matching loop plays the role of
    /// an unbounded aggressive price.
    fn match_market(&mut self, order: &Order) -> (trades: Vec<Trade>)
        requires
            old(self).wf(),
            order.wf(),
            !old(self).orders@.contains_key(order.order_id),
        ensures
            final(self).wf(),
            OrderBook::match_post(*old(self), *final(self), *order, trades@),
    {
        self.match_order(order)
    }

    /// A fill-or-kill order matches only when the available
    /// opposing volume strictly exceeds its total quantity;
    /// otherwise it is rejected whole, with no trades and no state
    /// change. Equality counts as insufficient.
    fn match_fill_or_kill(&mut self, order: &Order) -> (trades: Vec<Trade>)
        requires
            old(self).wf(),
            order.wf(),
            !old(self).orders@.contains_key(order.order_id),
        ensures
            final(self).wf(),
            !final(self).orders@.contains_key(order.order_id),
            old(self).avail_qty(*order) <= order.original_quantity ==> (trades@.len() == 0
                && OrderBook::same_book(*final(self), *old(self))),
            old(self).avail_qty(*order) > order.original_quantity ==> (OrderBook::match_post(
                *old(self),
                *final(self),
                *order,
                trades@,
            ) && sum_qty(trades@) == order.remaining_quantity),
    {
        let available_quantity = self.get_available_quantity(order);
        if available_quantity <= order.original_quantity as u64 {
            Vec::new()
        } else {
            self.match_order(order)
        }
    }

    /// Submit an order. A duplicate id or a zero quantity is
    /// rejected with the book unchanged; otherwise the order is
    /// routed by its type: market and immediate-or-cancel match and
    /// discard any remainder, fill-or-kill is all-or-nothing, and
    /// limit or good-till-cancel orders rest their remainder.
    pub fn add_order(&mut self, order: &Order) -> (r: Result<Vec<Trade>, OrderBookError>)
        requires
            old(self).wf(),
            order.wf(),
            (order.order_type == OrderType::LimitOrder || order.order_type
                == OrderType::GoodTillCancel) ==> forall|k: int|
                0 <= k < old(self).side_refs(order.side).len() && (#[trigger] old(self).side_refs(
                    order.side,
                )[k]).price == order.price ==> old(self).lvl(
                    old(self).side_refs(order.side)[k].index as int,
                ).volume + order.remaining_quantity <= Quantity::MAX,
        ensures
            final(self).wf(),
            old(self).orders@.contains_key(order.order_id) ==> (r == Err::<
                Vec<Trade>,
                OrderBookError,
            >(OrderBookError::OrderAlreadyExists { order_id: order.order_id })
                && OrderBook::same_book(*final(self), *old(self))),
            !old(self).orders@.contains_key(order.order_id) && order.original_quantity == 0
                ==> (r == Err::<Vec<Trade>, OrderBookError>(OrderBookError::InvalidQuantity {
                quantity: order.original_quantity,
            }) && OrderBook::same_book(*final(self), *old(self))),
            !old(self).orders@.contains_key(order.order_id) && order.original_quantity > 0
                ==> (r is Ok && {
                let trades = (r->Ok_0)@;
                match order.order_type {
                    OrderType::MarketOrder => OrderBook::match_post(
                        *old(self),
                        *final(self),
                        *order,
                        trades,
                    ),
                    OrderType::ImmediateOrCancel => OrderBook::match_post(
                        *old(self),
                        *final(self),
                        *order,
                        trades,
                    ),
                    OrderType::FillOrKill => {
                        &&& !final(self).orders@.contains_key(order.order_id)
                        &&& (old(self).avail_qty(*order) <= order.original_quantity ==> (
                        trades.len() == 0 && OrderBook::same_book(*final(self), *old(self))))
                        &&& (old(self).avail_qty(*order) > order.original_quantity ==> (
                        OrderBook::match_post(*old(self), *final(self), *order, trades)
                            && sum_qty(trades) == order.remaining_quantity))
                    },
                    OrderType::LimitOrder => OrderBook::limit_post(
                        *old(self),
                        *final(self),
                        *order,
                        trades,
                    ),
                    OrderType::GoodTillCancel => OrderBook::limit_post(
                        *old(self),
                        *final(self),
                        *order,
                        trades,
                    ),
                }
            }),
    {
        if self.orders.contains_key(&order.order_id) {
            return Err(OrderBookError::OrderAlreadyExists { order_id: order.order_id });
        }
        if order.original_quantity == 0 {
            return Err(OrderBookError::InvalidQuantity { quantity: order.original_quantity });
        }
        let trades = match order.order_type {
            OrderType::MarketOrder => self.match_market(order),
            OrderType::ImmediateOrCancel => self.match_order(order),
            OrderType::FillOrKill => self.match_fill_or_kill(order),
            _ => self.match_and_add_to_book(order),
        };
        Ok(trades)
    }

    /// Cancel a resting order. Fails with `OrderNotFound`, changing
    /// nothing, when no such order rests; otherwise removes exactly
    /// that order, rebalances its level's volume, and tears the
    /// level down if it emptied.
    pub fn cancel_order(&mut self, order_id: OrderId) -> (r: Result<(), OrderBookError>)
        requires
            old(self).wf(),
        ensures
            final(self).wf(),
            !old(self).orders@.contains_key(order_id) ==> r == Err::<(), OrderBookError>(
                OrderBookError::OrderNotFound { order_id },
            ) && OrderBook::same_book(*final(self), *old(self)),
            old(self).orders@.contains_key(order_id) ==> {
                let e = old(self).orders@[order_id];
                let i = e.price_level_cursor as int;
                &&& r is Ok
                &&& final(self).orders@ == old(self).orders@.remove(order_id)
                &&& final(self).side_refs(opp(e.order.side)) == old(self).side_refs(
                    opp(e.order.side),
                )
                &&& (old(self).lvl(i).order_count > 1 ==> {
                    &&& final(self).price_levels@.len() == old(self).price_levels@.len()
                    &&& final(self).live(i)
                    &&& final(self).lvl(i).orders@ == old(self).lvl(i).orders@.update(
                        e.order_cursor as int,
                        None,
                    )
                    &&& final(self).lvl(i).volume == old(self).lvl(i).volume
                        - e.order.remaining_quantity
                    &&& final(self).lvl(i).order_count == old(self).lvl(i).order_count - 1
                    &&& active_ids(final(self).lvl(i).orders@) == active_ids(
                        old(self).lvl(i).orders@,
                    ).remove(
                        active_count(old(self).lvl(i).orders@.take(e.order_cursor as int)) as int,
                    )
                    &&& final(self).side_refs(e.order.side) == old(self).side_refs(e.order.side)
                    &&& final(self).free_indices@ == old(self).free_indices@
                })
                &&& (old(self).lvl(i).order_count == 1 ==> {
                    &&& final(self).price_levels@ == old(self).price_levels@.update(i, None)
                    &&& final(self).free_indices@ == old(self).free_indices@.push(
                        e.price_level_cursor,
                    )
                    &&& exists|k: int|
                        0 <= k < old(self).side_refs(e.order.side).len() && old(self).side_refs(
                            e.order.side,
                        )[k] == (PriceLevelRef {
                            index: e.price_level_cursor,
                            price: e.order.price,
                        }) && final(self).side_refs(e.order.side) == old(self).side_refs(
                            e.order.side,
                        ).remove(k)
                })
            },
    {
        let ghost pre = *old(self);
        let e = match self.orders.get(&order_id) {
            Some(e) => *e,
            None => {
                return Err(OrderBookError::OrderNotFound { order_id });
            },
        };
        proof {
            assert(pre.orders@.contains_key(order_id));
            assert(pre.entry_ok(order_id));
        }
        self.orders.remove(&order_id);
        let index = e.price_level_cursor;
        let ghost i = index as int;
        let ghost l_old = pre.lvl(i);
        let taken = self.price_levels[index].take();
        let mut level = match taken {
            Some(l) => l,
            None => unreached(),
        };
        proof {
            assert(pre.level_ok(i));
            lemma_active_distinct(l_old.orders@);
            lemma_active_clear(l_old.orders@, e.order_cursor as int);
            let p = active_count(l_old.orders@.take(e.order_cursor as int)) as int;
            lemma_sum_rem_bound(active_ids(l_old.orders@), pre.orders@, p);
            assert(e.order.remaining_quantity <= level.volume);
        }
        level.remove_order(e.order_cursor, &e.order);
        let empty = level.order_count == 0;
        let ghost l_new = level;
        self.price_levels.set(index, Some(level));
        proof {
            assert(self.price_levels@ =~= pre.price_levels@.update(i, Some(l_new)));
            self.lemma_slot_cleared(pre, order_id, l_new);
        }
        if empty {
            self.remove_empty_price_level(e.order.price, e.order.side, index);
            proof {
                assert(self.price_levels@ =~= pre.price_levels@.update(i, None));
            }
        }
        Ok(())
    }
}

} // verus!
