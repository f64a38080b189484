use vstd::prelude::*;

use crate::models::{OrderId, Price, Quantity};
use crate::order::{Order, Side};

verus! {

/// All resting orders at one discrete price on one side of the book.
///
/// `orders` is the level's FIFO: slots are appended at the tail in
/// arrival order and a removed order leaves a cleared slot behind, so
/// the surviving entries keep their temporal order. `volume` is the
/// sum of the remaining quantities of all active slots and
/// `order_count` the number of active slots.
#[derive(Debug)]
pub struct PriceLevel {
    pub price: Price,
    pub orders: Vec<Option<OrderId>>,
    pub volume: Quantity,
    pub order_count: usize,
    pub capacity: usize,
}

/// An entry of the book's global order table: the authoritative
/// current value of the order, the slot it occupies inside its level
/// (`order_cursor`), and the arena index of that level
/// (`price_level_cursor`).
#[derive(Clone, Copy, Debug)]
pub struct OrderEntry {
    pub order: Order,
    pub order_cursor: usize,
    pub price_level_cursor: usize,
}

/// A request to change the terms of a resting order.
#[derive(Clone, Copy, Debug)]
pub struct ModifyOrder {
    pub order_id: OrderId,
    pub price: Price,
    pub side: Side,
    pub quantity: Quantity,
}

/// A market-data snapshot of one level.
#[derive(Clone, Copy, Debug, PartialEq, Eq, Structural)]
pub struct LevelInfo {
    pub price: Price,
    pub volume: Quantity,
}

/// The identifiers of the still-active slots, in insertion order.
pub open spec fn active_ids(slots: Seq<Option<OrderId>>) -> Seq<OrderId>
    decreases slots.len(),
{
    if slots.len() == 0 {
        Seq::empty()
    } else {
        match slots.first() {
            Some(id) => seq![id] + active_ids(slots.drop_first()),
            None => active_ids(slots.drop_first()),
        }
    }
}

/// How many slots are still active.
pub open spec fn active_count(slots: Seq<Option<OrderId>>) -> nat {
    active_ids(slots).len()
}

/// Appending a slot appends to the active ids exactly when the slot
/// is occupied.
pub proof fn lemma_active_push(slots: Seq<Option<OrderId>>, x: Option<OrderId>)
    ensures
        active_ids(slots.push(x)) == (match x {
            Some(id) => active_ids(slots).push(id),
            None => active_ids(slots),
        }),
    decreases slots.len(),
{
    if slots.len() == 0 {
        assert(slots.push(x).first() == x);
        assert(slots.push(x).drop_first() =~= Seq::<Option<OrderId>>::empty());
        assert(active_ids(Seq::<Option<OrderId>>::empty()) == Seq::<OrderId>::empty());
        match x {
            Some(id) => {
                assert(active_ids(slots.push(x)) =~= active_ids(slots).push(id));
            },
            None => {
                assert(active_ids(slots.push(x)) =~= active_ids(slots));
            },
        }
    } else {
        lemma_active_push(slots.drop_first(), x);
        assert(slots.push(x).first() == slots.first());
        assert(slots.push(x).drop_first() =~= slots.drop_first().push(x));
        match slots.first() {
            Some(h) => {
                match x {
                    Some(id) => {
                        assert((seq![h] + active_ids(slots.drop_first()).push(id)) =~= (seq![h]
                            + active_ids(slots.drop_first())).push(id));
                    },
                    None => {},
                }
            },
            None => {},
        }
    }
}

/// Clearing an occupied slot removes exactly one id from the active
/// sequence: the one standing at the slot's active position. All
/// other ids keep their relative order.
pub proof fn lemma_active_clear(slots: Seq<Option<OrderId>>, k: int)
    requires
        0 <= k < slots.len(),
        slots[k] is Some,
    ensures
        ({
            let p = active_count(slots.take(k)) as int;
            &&& 0 <= p < active_count(slots)
            &&& active_ids(slots)[p] == slots[k].unwrap()
            &&& active_ids(slots.update(k, None)) == active_ids(slots).remove(p)
        }),
    decreases slots.len(),
{
    let p = active_count(slots.take(k)) as int;
    if k == 0 {
        assert(slots.take(0) =~= Seq::<Option<OrderId>>::empty());
        assert(p == 0);
        let id = slots[0].unwrap();
        assert(active_ids(slots) == seq![id] + active_ids(slots.drop_first()));
        assert(slots.update(0, None).drop_first() =~= slots.drop_first());
        assert(active_ids(slots.update(0, None)) == active_ids(slots.drop_first()));
        assert((seq![id] + active_ids(slots.drop_first())).remove(0) =~= active_ids(
            slots.drop_first(),
        ));
    } else {
        lemma_active_clear(slots.drop_first(), k - 1);
        let pt = active_count(slots.drop_first().take(k - 1)) as int;
        assert(slots.update(k, None).drop_first() =~= slots.drop_first().update(k - 1, None));
        match slots.first() {
            Some(h) => {
            assert(slots.take(k).first() == slots.first());
                assert(slots.take(k).drop_first() =~= slots.drop_first().take(k - 1));
                assert(p == 1 + pt);
                assert((seq![h] + active_ids(slots.drop_first())).remove(p) =~= seq![h]
                    + active_ids(slots.drop_first()).remove(pt));
            },
            None => {
                assert(slots.take(k).first() == slots.first());
                assert(slots.take(k).drop_first() =~= slots.drop_first().take(k - 1));
                assert(p == pt);
            },
        }
    }
}

/// A nonempty active sequence has an occupied slot to show for it,
/// and the first occupied slot carries the first active id.
pub proof fn lemma_active_first(slots: Seq<Option<OrderId>>, k: int)
    requires
        0 <= k < slots.len(),
        slots[k] is Some,
        forall|j: int| 0 <= j < k ==> slots[j] is None,
    ensures
        active_count(slots.take(k)) == 0,
        active_ids(slots).len() > 0,
        active_ids(slots)[0] == slots[k].unwrap(),
        active_ids(slots.update(k, None)) == active_ids(slots).remove(0),
    decreases k,
{
    if k == 0 {
        assert(slots.take(0) =~= Seq::<Option<OrderId>>::empty());
        lemma_active_clear(slots, 0);
    } else {
        assert(slots.take(k).first() == slots.first());
        assert(slots.take(k).drop_first() =~= slots.drop_first().take(k - 1));
        lemma_active_first(slots.drop_first(), k - 1);
        lemma_active_clear(slots, k);
    }
}

/// Every occupied slot's id is an active id.
pub proof fn lemma_active_contains(slots: Seq<Option<OrderId>>, k: int)
    requires
        0 <= k < slots.len(),
        slots[k] is Some,
    ensures
        active_ids(slots).contains(slots[k].unwrap()),
    decreases slots.len(),
{
    if k == 0 {
        assert(active_ids(slots)[0] == slots[k].unwrap());
    } else {
        lemma_active_contains(slots.drop_first(), k - 1);
        let id = slots[k].unwrap();
        let j = choose|j: int|
            0 <= j < active_ids(slots.drop_first()).len() && active_ids(slots.drop_first())[j]
                == id;
        match slots.first() {
            Some(h) => {
                assert(active_ids(slots)[j + 1] == id);
            },
            None => {
                assert(active_ids(slots)[j] == id);
            },
        }
    }
}

/// Every active id comes from some occupied slot.
pub proof fn lemma_active_from_slot(slots: Seq<Option<OrderId>>, p: int)
    requires
        0 <= p < active_ids(slots).len(),
    ensures
        exists|k: int|
            0 <= k < slots.len() && slots[k] == Some(active_ids(slots)[p]),
    decreases slots.len(),
{
    match slots.first() {
        Some(h) => {
            if p == 0 {
                assert(slots[0] == Some(active_ids(slots)[0]));
            } else {
                lemma_active_from_slot(slots.drop_first(), p - 1);
                let k = choose|k: int|
                    0 <= k < slots.drop_first().len() && slots.drop_first()[k] == Some(
                        active_ids(slots.drop_first())[p - 1],
                    );
                assert(slots[k + 1] == Some(active_ids(slots)[p]));
            }
        },
        None => {
            lemma_active_from_slot(slots.drop_first(), p);
            let k = choose|k: int|
                0 <= k < slots.drop_first().len() && slots.drop_first()[k] == Some(
                    active_ids(slots.drop_first())[p],
                );
            assert(slots[k + 1] == Some(active_ids(slots)[p]));
        },
    }
}

/// An id can only be active if some occupied slot carries it.
pub proof fn lemma_active_member(slots: Seq<Option<OrderId>>, id: OrderId)
    requires
        active_ids(slots).contains(id),
    ensures
        exists|k: int| 0 <= k < slots.len() && slots[k] == Some(id),
{
    let p = choose|p: int|
        0 <= p < active_ids(slots).len() && active_ids(slots)[p] == id;
    lemma_active_from_slot(slots, p);
}

/// Distinct occupied slots give pairwise distinct active ids.
pub proof fn lemma_active_distinct(slots: Seq<Option<OrderId>>)
    requires
        forall|a: int, b: int|
            0 <= a < b < slots.len() && slots[a] is Some && slots[b] is Some ==> slots[a]
                != slots[b],
    ensures
        forall|p: int, q: int|
            0 <= p < q < active_ids(slots).len() ==> active_ids(slots)[p] != active_ids(slots)[q],
    decreases slots.len(),
{
    if slots.len() > 0 {
        let rest = slots.drop_first();
        assert forall|a: int, b: int|
            0 <= a < b < rest.len() && rest[a] is Some && rest[b] is Some implies rest[a]
            != rest[b] by {
            assert(slots[a + 1] == rest[a] && slots[b + 1] == rest[b]);
        }
        lemma_active_distinct(rest);
        match slots.first() {
            Some(h) => {
                assert(!active_ids(rest).contains(h)) by {
                    if active_ids(rest).contains(h) {
                        lemma_active_member(rest, h);
                        let k = choose|k: int| 0 <= k < rest.len() && rest[k] == Some(h);
                        assert(slots[k + 1] == Some(h));
                        assert(slots[0] == Some(h));
                    }
                }
                assert forall|p: int, q: int|
                    0 <= p < q < active_ids(slots).len() implies active_ids(slots)[p]
                    != active_ids(slots)[q] by {
                    assert(active_ids(slots) == seq![h] + active_ids(rest));
                    if p == 0 {
                        assert(active_ids(slots)[q] == active_ids(rest)[q - 1]);
                        assert(active_ids(rest).contains(active_ids(rest)[q - 1]));
                    } else {
                        assert(active_ids(slots)[p] == active_ids(rest)[p - 1]);
                        assert(active_ids(slots)[q] == active_ids(rest)[q - 1]);
                    }
                }
            },
            None => {},
        }
    }
}

impl PriceLevel {
    /// The slot bookkeeping the level maintains on its own: the count
    /// field tracks the active slots, and no id occupies two slots.
    pub open spec fn wf(self) -> bool {
        &&& self.order_count == active_count(self.orders@)
        &&& forall|a: int, b: int|
            0 <= a < b < self.orders@.len() && self.orders@[a] is Some && self.orders@[b] is Some
                ==> self.orders@[a] != self.orders@[b]
    }

    /// An empty level at the given price.
    pub fn new(price: Price, capacity: usize) -> (r: Self)
        ensures
            r.price == price,
            r.capacity == capacity,
            r.volume == 0,
            r.order_count == 0,
            r.orders@ =~= Seq::<Option<OrderId>>::empty(),
            r.wf(),
    {
        let orders: Vec<Option<OrderId>> = Vec::with_capacity(capacity);
        Self { price, orders, volume: 0, order_count: 0, capacity }
    }

    /// Append an order at the tail of the FIFO. Returns the slot the
    /// order occupies.
    pub fn add_order(&mut self, order: &Order) -> (cursor: usize)
        requires
            old(self).wf(),
            old(self).volume + order.remaining_quantity <= Quantity::MAX,
            old(self).order_count < usize::MAX,
            forall|a: int|
                0 <= a < old(self).orders@.len() ==> old(self).orders@[a] != Some(order.order_id),
        ensures
            final(self).wf(),
            cursor == old(self).orders@.len(),
            final(self).orders@ == old(self).orders@.push(Some(order.order_id)),
            final(self).volume == old(self).volume + order.remaining_quantity,
            final(self).order_count == old(self).order_count + 1,
            final(self).price == old(self).price,
            final(self).capacity == old(self).capacity,
            active_ids(final(self).orders@) == active_ids(old(self).orders@).push(order.order_id),
    {
        proof {
            lemma_active_push(old(self).orders@, Some(order.order_id));
        }
        self.volume = self.volume + order.remaining_quantity;
        self.order_count = self.order_count + 1;
        let cursor = self.orders.len();
        self.orders.push(Some(order.order_id));
        cursor
    }

    /// Clear the slot at `cursor`, which must hold this order, and
    /// take the order's remaining quantity out of the level's volume.
    pub fn remove_order(&mut self, cursor: usize, order: &Order)
        requires
            old(self).wf(),
            cursor < old(self).orders@.len(),
            old(self).orders@[cursor as int] == Some(order.order_id),
            order.remaining_quantity <= old(self).volume,
        ensures
            final(self).wf(),
            final(self).orders@ == old(self).orders@.update(cursor as int, None),
            final(self).volume == old(self).volume - order.remaining_quantity,
            final(self).order_count == old(self).order_count - 1,
            final(self).price == old(self).price,
            final(self).capacity == old(self).capacity,
            active_ids(final(self).orders@) == active_ids(old(self).orders@).remove(
                active_count(old(self).orders@.take(cursor as int)) as int,
            ),
            active_ids(old(self).orders@)[active_count(old(self).orders@.take(cursor as int)) as int]
                == order.order_id,
    {
        proof {
            lemma_active_clear(self.orders@, cursor as int);
        }
        self.orders.set(cursor, None);
        self.volume = self.volume - order.remaining_quantity;
        self.order_count = self.order_count - 1;
    }

    /// The slot of the earliest-inserted still-active order: every
    /// slot before it has been cleared.
    pub fn get_shift_loc(&self) -> (shift: usize)
        requires
            self.wf(),
            self.order_count > 0,
        ensures
            shift < self.orders@.len(),
            self.orders@[shift as int] is Some,
            forall|j: int| 0 <= j < shift ==> self.orders@[j] is None,
            self.orders@[shift as int].unwrap() == active_ids(self.orders@)[0],
    {
        proof {
            lemma_active_from_slot(self.orders@, 0);
        }
        let n = self.orders.len();
        let mut shift: usize = 0;
        while self.orders[shift].is_none()
            invariant
                n == self.orders@.len(),
                shift < n,
                forall|j: int| 0 <= j < shift ==> self.orders@[j] is None,
                exists|k: int|
                    shift <= k < self.orders@.len() && self.orders@[k] is Some,
            decreases self.orders@.len() - shift,
        {
            proof {
                let k = choose|k: int|
                    shift <= k < self.orders@.len() && self.orders@[k] is Some;
                assert(k > shift);
            }
            shift = shift + 1;
        }
        proof {
            lemma_active_first(self.orders@, shift as int);
        }
        shift
    }

    /// Replace a resting order's contribution to the level's volume
    /// when its remaining quantity changes in place.
    pub fn update_order(&mut self, orig_order: &Order, modified_order: &Order)
        requires
            orig_order.remaining_quantity <= old(self).volume,
            old(self).volume - orig_order.remaining_quantity + modified_order.remaining_quantity
                <= Quantity::MAX,
        ensures
            final(self).volume == old(self).volume - orig_order.remaining_quantity
                + modified_order.remaining_quantity,
            final(self).orders@ == old(self).orders@,
            final(self).order_count == old(self).order_count,
            final(self).price == old(self).price,
            final(self).capacity == old(self).capacity,
    {
        self.volume = self.volume - orig_order.remaining_quantity
            + modified_order.remaining_quantity;
    }

    /// A snapshot of the level for market-data consumers.
    pub fn get_level_info(&self) -> (r: LevelInfo)
        ensures
            r.price == self.price,
            r.volume == self.volume,
    {
        LevelInfo { price: self.price, volume: self.volume }
    }
}

} // verus!
