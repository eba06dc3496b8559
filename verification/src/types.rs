//! Identifier aliases and the small enumerations shared by the whole library.
use vstd::prelude::*;

verus! {

pub type InstrumentId = u64;

pub type Timestamp = u64;

pub type OrderId = u64;

pub type Quantity = u64;

pub type Volume = u64;

/// Which side of the book an order lives on.
#[derive(Debug, Clone, Copy, PartialEq, Eq, Structural)]
pub enum Side {
    Bid,
    Ask,
    Invalid,
}

/// Order duration / execution type.
#[derive(Debug, Clone, Copy, PartialEq, Eq, Structural)]
pub enum OrderType {
    /// Immediate-or-Cancel: fill what you can right now, cancel the rest.
    Ioc,
    /// Good-for-Day: rest in the book until filled or cancelled.
    Gfd,
    /// Market order: fill at the top of the book. Whatever price it carries, it
    /// trades at once against the best opposite orders, at their prices, for as
    /// long as it has something left and the other side holds orders; it never
    /// rests, and what is left of it is dropped.
    Market,
    Invalid,
}

/// Top-level action named by the first word of an input line.
#[derive(Debug, Clone, Copy, PartialEq, Eq, Structural)]
pub enum Action {
    Buy,
    Sell,
    Cancel,
    Modify,
    Print,
    Symbol,
    Invalid,
}

} // verus!
