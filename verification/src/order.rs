//! Limit orders: an immutable descriptor of a priced buy or sell intention,
//! referring to its owning account by identifier.

use vstd::prelude::*;

use crate::account::AccountId;

verus! {

pub type OrderId = u128;
pub type OrderPrice = u128;
pub type OrderQuantity = u128;

/// The side of an order: a bid buys, an ask sells.
#[derive(Clone, Copy, Debug, PartialEq, Eq, Structural)]
pub enum OrderType {
    Bid,
    Ask,
}

impl OrderType {
    /// The conventional tape label of this side.
    pub open spec fn spec_label(self) -> Seq<char> {
        match self {
            OrderType::Bid => "BID"@,
            OrderType::Ask => "ASK"@,
        }
    }

    pub fn label(&self) -> (r: String)
        ensures
            r@ == self.spec_label(),
    {
        match self {
            OrderType::Bid => "BID".to_string(),
            OrderType::Ask => "ASK".to_string(),
        }
    }
}

/// A limit order. The price and quantity are strictly positive; while the
/// order rests in a book, `quantity` carries the unfilled residual.
#[derive(Clone, Copy, Debug, PartialEq, Eq, Structural)]
pub struct Order {
    pub id: OrderId,
    pub owner: AccountId,
    pub order_type: OrderType,
    pub price: OrderPrice,
    pub quantity: OrderQuantity,
}

impl Order {
    pub fn new(
        id: OrderId,
        owner: AccountId,
        order_type: OrderType,
        price: OrderPrice,
        quantity: OrderQuantity,
    ) -> (r: Self)
        requires
            price > 0,
            quantity > 0,
        ensures
            r == (Order { id, owner, order_type, price, quantity }),
    {
        Order { id, owner, order_type, price, quantity }
    }

    pub fn id(&self) -> (r: OrderId)
        ensures
            r == self.id,
    {
        self.id
    }

    pub fn owner(&self) -> (r: AccountId)
        ensures
            r == self.owner,
    {
        self.owner
    }

    pub fn order_type(&self) -> (r: OrderType)
        ensures
            r == self.order_type,
    {
        self.order_type
    }

    pub fn price(&self) -> (r: OrderPrice)
        ensures
            r == self.price,
    {
        self.price
    }

    pub fn quantity(&self) -> (r: OrderQuantity)
        ensures
            r == self.quantity,
    {
        self.quantity
    }
}

} // verus!
