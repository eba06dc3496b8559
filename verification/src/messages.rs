//! Messages that drive the exchange, and packets that batch them.
use vstd::prelude::*;

use crate::price::Price6;
use crate::types::{InstrumentId, OrderId, OrderType, Quantity, Side, Timestamp};

verus! {

/// Register (or re-register) a symbol under an instrument id.
#[derive(Debug, Clone)]
pub struct SymbolMsg<P> {
    pub symbol: String,
    pub instrument_id: InstrumentId,
    pub last_price: P,
}

/// Submit a new order.
#[derive(Debug, Clone)]
pub struct AddOrderMsg<P> {
    pub instrument_id: InstrumentId,
    pub order_id: OrderId,
    pub price: P,
    pub quantity: Quantity,
    pub side: Side,
    pub order_type: OrderType,
    pub update_time_ns: Timestamp,
}

/// Replace a resting order's side, price and quantity.
#[derive(Debug, Clone)]
pub struct ModifyOrderMsg<P> {
    pub order_id: OrderId,
    pub instrument_id: InstrumentId,
    pub price: P,
    pub side: Side,
    pub quantity: Quantity,
    pub update_time_ns: Timestamp,
}

/// Cancel a resting order.
#[derive(Debug, Clone)]
pub struct CancelOrderMsg {
    pub order_id: OrderId,
    pub instrument_id: InstrumentId,
}

#[derive(Debug, Clone)]
pub enum CoreMessage<P> {
    Symbol(SymbolMsg<P>),
    AddOrder(AddOrderMsg<P>),
    ModifyOrder(ModifyOrderMsg<P>),
    CancelOrder(CancelOrderMsg),
}

/// An ordered batch of messages.
#[derive(Debug, Clone)]
pub struct Packet<P> {
    pub messages: Vec<CoreMessage<P>>,
}

impl<P> Packet<P> {
    pub fn new() -> (p: Self)
        ensures
            p.messages@ == Seq::<CoreMessage<P>>::empty(),
    {
        Packet { messages: Vec::new() }
    }

    pub fn push(&mut self, msg: CoreMessage<P>)
        ensures
            final(self).messages@ == old(self).messages@.push(msg),
    {
        self.messages.push(msg);
    }

    pub fn is_empty(&self) -> (b: bool)
        ensures
            b == (self.messages@.len() == 0),
    {
        self.messages.len() == 0
    }

    pub fn len(&self) -> (n: usize)
        ensures
            n == self.messages@.len(),
    {
        self.messages.len()
    }
}

/// Default price precision (6 decimal places).
pub type Price = Price6;

/// The messages of a list of packets, one packet after the other.
pub open spec fn packed_messages<P>(ps: Seq<Packet<P>>) -> Seq<CoreMessage<P>>
    decreases ps.len(),
{
    if ps.len() == 0 {
        Seq::empty()
    } else {
        packed_messages(ps.drop_last()) + ps.last().messages@
    }
}

/// Pack messages, in order, into packets of `per_packet` messages each; only the
/// last packet may hold fewer, and no packet is empty.
pub fn pack_messages<P>(msgs: Vec<CoreMessage<P>>, per_packet: usize) -> (r: Vec<Packet<P>>)
    requires
        per_packet > 0,
    ensures
        packed_messages(r@) == msgs@,
        forall|i: int| 0 <= i < r@.len() ==> 0 < (#[trigger] r@[i]).messages@.len() <= per_packet,
        forall|i: int| 0 <= i < r@.len() - 1 ==> (#[trigger] r@[i]).messages@.len() == per_packet,
{
    let ghost all = msgs@;
    let n = msgs.len();
    let mut rest = msgs;
    let mut rev: Vec<CoreMessage<P>> = Vec::new();
    while rest.len() > 0
        invariant
            rest@.len() + rev@.len() == n,
            n == all.len(),
            rest@ == all.take(rest@.len() as int),
            forall|j: int| 0 <= j < rev@.len() ==> #[trigger] rev@[j] == all[n - 1 - j],
        decreases rest@.len(),
    {
        let m = rest.pop().unwrap();
        assert(rest@ =~= all.take(rest@.len() as int));
        rev.push(m);
    }
    let mut packets: Vec<Packet<P>> = Vec::new();
    let mut cur: Packet<P> = Packet::new();
    let mut i: usize = 0;
    assert(packed_messages(packets@) + cur.messages@ =~= all.take(0));
    while i < n
        invariant
            i <= n,
            n == all.len(),
            per_packet > 0,
            rev@.len() == n - i,
            forall|j: int| 0 <= j < rev@.len() ==> #[trigger] rev@[j] == all[n - 1 - j],
            packed_messages(packets@) + cur.messages@ == all.take(i as int),
            cur.messages@.len() <= per_packet,
            forall|k: int| 0 <= k < packets@.len() ==> (#[trigger] packets@[k]).messages@.len()
                == per_packet,
        decreases n - i,
    {
        assert(rev@[rev@.len() - 1] == all[i as int]);
        let m = rev.pop().unwrap();
        if cur.len() >= per_packet {
            let ghost before = packets@;
            packets.push(cur);
            assert(packets@.drop_last() =~= before);
            cur = Packet::new();
            assert(packed_messages(packets@) + cur.messages@ =~= all.take(i as int));
        }
        let ghost prev = cur.messages@;
        cur.push(m);
        assert(all.take(i as int + 1) =~= all.take(i as int).push(all[i as int]));
        assert(packed_messages(packets@) + cur.messages@ =~= (packed_messages(packets@) + prev).push(
            all[i as int],
        ));
        i = i + 1;
    }
    assert(all.take(n as int) =~= all);
    if !cur.is_empty() {
        let ghost before = packets@;
        packets.push(cur);
        assert(packets@.drop_last() =~= before);
    } else {
        assert(packed_messages(packets@) + Seq::<CoreMessage<P>>::empty() =~= packed_messages(packets@));
    }
    packets
}

} // verus!
