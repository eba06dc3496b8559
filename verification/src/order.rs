//! A single order and its lifecycle (partial fills until nothing remains).
use vstd::prelude::*;

use crate::messages::Price;
use crate::types::{OrderId, OrderType, Quantity, Side, Timestamp};

verus! {

/// What an order is, as plain values: the price is its raw scaled integer.
pub struct OrderModel {
    pub order_type: OrderType,
    pub side: Side,
    pub order_id: u64,
    pub price: u64,
    pub initial_quantity: u64,
    pub remaining_quantity: u64,
    pub creation_time: u64,
}

/// The model of a fresh order: nothing of it has been filled yet.
pub open spec fn new_order_model(
    order_type: OrderType,
    side: Side,
    order_id: u64,
    price: u64,
    quantity: u64,
    creation_time: u64,
) -> OrderModel {
    OrderModel {
        order_type,
        side,
        order_id,
        price,
        initial_quantity: quantity,
        remaining_quantity: quantity,
        creation_time,
    }
}

/// The model after `q` more units have been filled.
pub open spec fn fill_model(o: OrderModel, q: u64) -> OrderModel {
    OrderModel { remaining_quantity: (o.remaining_quantity - q) as u64, ..o }
}

#[derive(Debug, Clone, Copy)]
pub struct Order {
    order_type: OrderType,
    side: Side,
    order_id: OrderId,
    price: Price,
    initial_quantity: Quantity,
    remaining_quantity: Quantity,
    creation_time_ns: Timestamp,
}

impl View for Order {
    type V = OrderModel;

    closed spec fn view(&self) -> OrderModel {
        OrderModel {
            order_type: self.order_type,
            side: self.side,
            order_id: self.order_id,
            price: self.price@,
            initial_quantity: self.initial_quantity,
            remaining_quantity: self.remaining_quantity,
            creation_time: self.creation_time_ns,
        }
    }
}

impl Order {
    /// Never more remains than was ordered.
    #[verifier::type_invariant]
    spec fn remaining_within_initial(&self) -> bool {
        self.remaining_quantity <= self.initial_quantity
    }

    pub fn new(
        order_type: OrderType,
        side: Side,
        order_id: OrderId,
        price: Price,
        quantity: Quantity,
        creation_time_ns: Timestamp,
    ) -> (o: Self)
        ensures
            o@ == new_order_model(order_type, side, order_id, price@, quantity, creation_time_ns),
    {
        Order {
            order_type,
            side,
            order_id,
            price,
            initial_quantity: quantity,
            remaining_quantity: quantity,
            creation_time_ns,
        }
    }

    pub fn order_type(&self) -> (t: OrderType)
        ensures
            t == self@.order_type,
    {
        self.order_type
    }

    pub fn side(&self) -> (s: Side)
        ensures
            s == self@.side,
    {
        self.side
    }

    pub fn order_id(&self) -> (id: OrderId)
        ensures
            id == self@.order_id,
    {
        self.order_id
    }

    pub fn price(&self) -> (p: Price)
        ensures
            p@ == self@.price,
    {
        self.price
    }

    pub fn initial_quantity(&self) -> (q: Quantity)
        ensures
            q == self@.initial_quantity,
    {
        self.initial_quantity
    }

    pub fn remaining_quantity(&self) -> (q: Quantity)
        ensures
            q == self@.remaining_quantity,
    {
        self.remaining_quantity
    }

    pub fn creation_time(&self) -> (t: Timestamp)
        ensures
            t == self@.creation_time,
    {
        self.creation_time_ns
    }

    /// How much of the order has been filled so far.
    pub fn filled_quantity(&self) -> (q: Quantity)
        ensures
            q == self@.initial_quantity - self@.remaining_quantity,
    {
        proof {
            use_type_invariant(self);
        }
        self.initial_quantity - self.remaining_quantity
    }

    /// Reduce the remaining quantity by `q`. Returns `false`, and changes
    /// nothing, when `q` exceeds what is left.
    pub fn fill(&mut self, q: Quantity) -> (ok: bool)
        ensures
            ok == (q <= old(self)@.remaining_quantity),
            ok ==> final(self)@ == fill_model(old(self)@, q),
            !ok ==> final(self)@ == old(self)@,
    {
        proof {
            use_type_invariant(&*self);
        }
        if q > self.remaining_quantity {
            return false;
        }
        self.remaining_quantity = self.remaining_quantity - q;
        true
    }

    /// `true` when nothing remains to be filled.
    pub fn is_filled(&self) -> (b: bool)
        ensures
            b == (self@.remaining_quantity == 0),
    {
        self.remaining_quantity == 0
    }
}

/// Handle under which the books store and pass orders.
pub type OrderPtr = Order;

/// Build a fresh order (the handle is the order itself).
pub fn new_order_ptr(
    order_type: OrderType,
    side: Side,
    order_id: OrderId,
    price: Price,
    quantity: Quantity,
    creation_time_ns: Timestamp,
) -> (o: OrderPtr)
    ensures
        o@ == new_order_model(order_type, side, order_id, price@, quantity, creation_time_ns),
{
    Order::new(order_type, side, order_id, price, quantity, creation_time_ns)
}

} // verus!
