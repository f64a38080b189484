use vstd::prelude::*;

use crate::custom_errors::QuantityError;
use crate::models::{OrderId, Price, Quantity};
use crate::runtime;
use std::rc::Rc;

verus! {

#[derive(Clone, Copy, Debug, PartialEq, Eq, Structural)]
pub enum OrderType {
    LimitOrder,
    MarketOrder,
    ImmediateOrCancel,
    FillOrKill,
    GoodTillCancel,
}

#[derive(Clone, Copy, Debug, PartialEq, Eq, Structural)]
pub enum Side {
    Buy,
    Sell,
}

#[derive(Clone, Copy, Debug, PartialEq, Eq, Structural)]
pub enum Status {
    New,
    PartiallyFilled,
    Filled,
    Canceled,
}

/// A single order: immutable identity, quantities that change only
/// through fills and cancels.
#[derive(Clone, Copy, Debug, PartialEq, Eq, Structural)]
pub struct Order {
    pub order_type: OrderType,
    pub order_id: OrderId,
    pub side: Side,
    pub price: Price,
    pub status: Status,
    pub original_quantity: Quantity,
    pub executed_quantity: Quantity,
    pub remaining_quantity: Quantity,
    pub timestamp: i64,
}

/// A request to re-enter an order with new terms.
pub struct ModifyOrder {
    pub order_id: OrderId,
    pub price: Price,
    pub quantity: Quantity,
    pub side: Side,
    pub timestamp: i64,
}

impl Order {
    /// The quantity bookkeeping that every order keeps at all times:
    /// what remains is exactly what was asked for less what was done.
    pub open spec fn wf(self) -> bool {
        &&& self.executed_quantity <= self.original_quantity
        &&& self.remaining_quantity == self.original_quantity - self.executed_quantity
    }

    /// Create a fresh order with a newly drawn identifier and the
    /// current time as its timestamp.
    pub fn new(
        order_type: OrderType,
        side: Side,
        price: Price,
        original_quantity: Quantity,
    ) -> (r: Self)
        ensures
            r.order_type == order_type,
            r.side == side,
            r.price == price,
            r.status == Status::New,
            r.original_quantity == original_quantity,
            r.executed_quantity == 0,
            r.remaining_quantity == original_quantity,
            r.wf(),
    {
        Order {
            order_type,
            order_id: runtime::fresh_id(),
            side,
            price,
            status: Status::New,
            original_quantity,
            executed_quantity: 0,
            remaining_quantity: original_quantity,
            timestamp: runtime::now_millis(),
        }
    }

    /// Execute `quantity` units of this order. Fails, changing
    /// nothing, when more is asked than remains outstanding.
    pub fn fill_qty(&mut self, quantity: Quantity) -> (r: Result<(), QuantityError>)
        requires
            old(self).wf(),
        ensures
            final(self).wf(),
            old(self).remaining_quantity < quantity ==> (r is Err && *final(self) == *old(self)),
            old(self).remaining_quantity >= quantity ==> (r is Ok && *final(self) == (Order {
                executed_quantity: (old(self).executed_quantity + quantity) as Quantity,
                remaining_quantity: (old(self).remaining_quantity - quantity) as Quantity,
                ..*old(self)
            })),
    {
        if (self.original_quantity - self.executed_quantity) < quantity {
            Err(QuantityError { message: String::from_str("fill quantity exceeds remaining quantity") })
        } else {
            self.executed_quantity += quantity;
            self.remaining_quantity = self.original_quantity - self.executed_quantity;
            Ok(())
        }
    }

    /// Whether nothing of the order remains outstanding.
    pub fn is_filled(self) -> (r: bool)
        ensures
            r == (self.remaining_quantity == 0),
    {
        self.remaining_quantity == 0
    }
}

impl ModifyOrder {
    fn new(order_id: OrderId, price: Price, quantity: Quantity, side: Side) -> (r: Self)
        ensures
            r.order_id == order_id,
            r.price == price,
            r.quantity == quantity,
            r.side == side,
    {
        let now = runtime::now_millis();
        ModifyOrder { order_id, price, quantity, side, timestamp: now }
    }

    /// Turn the request into a fresh order of the given type.
    pub fn to_order_ptr(&self, order_type: OrderType) -> (r: Rc<Order>)
        ensures
            r.order_type == order_type,
            r.side == self.side,
            r.price == self.price,
            r.original_quantity == self.quantity,
            r.remaining_quantity == self.quantity,
            r.executed_quantity == 0,
            r.wf(),
    {
        Rc::new(Order::new(order_type, self.side, self.price, self.quantity))
    }
}

} // verus!
