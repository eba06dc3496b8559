//! Routing of decoded messages to the exchange, with the order operations timed
//! by a latency counter when one is kept.
use vstd::prelude::*;

use crate::exchange_order_book::{
    add_effect, cancel_effect, message_ok, modify_effect, symbol_effect, ExchangeOrderBook,
};
use crate::exchange_order_book::ExchangeView;
use crate::messages::{CoreMessage, Packet, Price};
use crate::perf_counter::PerfCounter;

verus! {

/// An exchange handed back with the result of the operation run on it.
pub type Handed = (ExchangeOrderBook, bool);

/// The kind of timing an operation is recorded under.
pub enum TimingKind {
    Add,
    Update,
    Cancel,
}

/// `new` is `old` with one more timing of the given kind and nothing else changed.
pub open spec fn one_more_timing(old: PerfCounter, new: PerfCounter, kind: TimingKind) -> bool {
    &&& new.file_name() == old.file_name()
    &&& match kind {
        TimingKind::Add => new.adds().len() == old.adds().len() + 1 && new.adds().drop_last()
            == old.adds() && new.updates() == old.updates() && new.cancels() == old.cancels(),
        TimingKind::Update => new.updates().len() == old.updates().len() + 1
            && new.updates().drop_last() == old.updates() && new.adds() == old.adds()
            && new.cancels() == old.cancels(),
        TimingKind::Cancel => new.cancels().len() == old.cancels().len() + 1
            && new.cancels().drop_last() == old.cancels() && new.adds() == old.adds()
            && new.updates() == old.updates(),
    }
}

/// What an operation of the given kind does to the counter, if one is kept: one
/// more timing of that kind. Without a counter nothing is recorded.
pub open spec fn timing_recorded(
    old: Option<PerfCounter>,
    new: Option<PerfCounter>,
    kind: TimingKind,
) -> bool {
    match old {
        None => new is None,
        Some(p) => new matches Some(q) && one_more_timing(p, q, kind),
    }
}

/// Route one message to the exchange. Symbol registrations are not timed; adds,
/// modifications and cancellations are, each under its own kind, when `perf`
/// holds a counter. The result is that of the exchange's operation.
pub fn process_message(
    msg: CoreMessage<Price>,
    exchange: &mut ExchangeOrderBook,
    perf: &mut Option<PerfCounter>,
) -> (ok: bool)
    requires
        old(exchange).wf(),
        message_ok(old(exchange)@, msg),
    ensures
        final(exchange).wf(),
        match msg {
            CoreMessage::Symbol(m) => ok && symbol_effect(old(exchange)@, final(exchange)@, m)
                && *final(perf) == *old(perf),
            CoreMessage::AddOrder(m) => add_effect(old(exchange)@, final(exchange)@, m, ok)
                && timing_recorded(*old(perf), *final(perf), TimingKind::Add),
            CoreMessage::ModifyOrder(m) => modify_effect(old(exchange)@, final(exchange)@, m, ok)
                && timing_recorded(*old(perf), *final(perf), TimingKind::Update),
            CoreMessage::CancelOrder(m) => cancel_effect(old(exchange)@, final(exchange)@, m, ok)
                && timing_recorded(*old(perf), *final(perf), TimingKind::Cancel),
        },
{
    match msg {
        CoreMessage::Symbol(s) => {
            exchange.add_update_symbol(&s);
            true
        },
        CoreMessage::AddOrder(a) => match perf {
            None => exchange.add_new_order(&a),
            Some(p) => {
                let mut ex = ExchangeOrderBook::new(String::new());
                std::mem::swap(&mut ex, exchange);
                let (after, ok) = p.time_add(
                    move || -> (r: Handed)
                        requires
                            ex.wf(),
                            message_ok(ex@, CoreMessage::AddOrder(a)),
                        ensures
                            r.0.wf(),
                            add_effect(ex@, r.0@, a, r.1)
                        {
                            let mut e = ex;
                            let ok = e.add_new_order(&a);
                            (e, ok)
                        }
                );
                *exchange = after;
                ok
            },
        },
        CoreMessage::ModifyOrder(m) => match perf {
            None => exchange.update_order(&m),
            Some(p) => {
                let mut ex = ExchangeOrderBook::new(String::new());
                std::mem::swap(&mut ex, exchange);
                let (after, ok) = p.time_update(
                    move || -> (r: Handed)
                        requires
                            ex.wf(),
                            message_ok(ex@, CoreMessage::ModifyOrder(m)),
                        ensures
                            r.0.wf(),
                            modify_effect(ex@, r.0@, m, r.1)
                        {
                            let mut e = ex;
                            let ok = e.update_order(&m);
                            (e, ok)
                        }
                );
                *exchange = after;
                ok
            },
        },
        CoreMessage::CancelOrder(c) => match perf {
            None => exchange.cancel_order(&c),
            Some(p) => {
                let mut ex = ExchangeOrderBook::new(String::new());
                std::mem::swap(&mut ex, exchange);
                let (after, ok) = p.time_cancel(
                    move || -> (r: Handed)
                        requires
                            ex.wf(),
                        ensures
                            r.0.wf(),
                            cancel_effect(ex@, r.0@, c, r.1)
                        {
                            let mut e = ex;
                            let ok = e.cancel_order(&c);
                            (e, ok)
                        }
                );
                *exchange = after;
                ok
            },
        },
    }
}

/// One message of a packet, taking the exchange from `a` to `b` and the counter
/// from `pa` to `pb`: a message that the exchange can take is processed as
/// `process_message` does it; any other is skipped, changing nothing, with `false`.
pub open spec fn packet_step(
    a: ExchangeView,
    b: ExchangeView,
    pa: Option<PerfCounter>,
    pb: Option<PerfCounter>,
    msg: CoreMessage<Price>,
    ok: bool,
) -> bool {
    if message_ok(a, msg) {
        match msg {
            CoreMessage::Symbol(m) => ok && symbol_effect(a, b, m) && pb == pa,
            CoreMessage::AddOrder(m) => add_effect(a, b, m, ok) && timing_recorded(
                pa,
                pb,
                TimingKind::Add,
            ),
            CoreMessage::ModifyOrder(m) => modify_effect(a, b, m, ok) && timing_recorded(
                pa,
                pb,
                TimingKind::Update,
            ),
            CoreMessage::CancelOrder(m) => cancel_effect(a, b, m, ok) && timing_recorded(
                pa,
                pb,
                TimingKind::Cancel,
            ),
        }
    } else {
        !ok && b == a && pb == pa
    }
}

/// The exchange and counter states `states` are those that the messages `msgs`
/// pass through one after the other, with `oks` the result of each.
pub open spec fn packet_chain(
    states: Seq<(ExchangeView, Option<PerfCounter>)>,
    msgs: Seq<CoreMessage<Price>>,
    oks: Seq<bool>,
) -> bool {
    &&& states.len() == msgs.len() + 1
    &&& oks.len() == msgs.len()
    &&& forall|i: int|
        0 <= i < msgs.len() ==> packet_step(
            states[i].0,
            states[i + 1].0,
            states[i].1,
            states[i + 1].1,
            #[trigger] msgs[i],
            oks[i],
        )
}

/// The messages `msgs`, one after the other, take the exchange from `a` to `b` and
/// the counter from `pa` to `pb`, with `oks` the result of each.
pub open spec fn packet_run(
    a: ExchangeView,
    b: ExchangeView,
    pa: Option<PerfCounter>,
    pb: Option<PerfCounter>,
    msgs: Seq<CoreMessage<Price>>,
    oks: Seq<bool>,
) -> bool {
    exists|states: Seq<(ExchangeView, Option<PerfCounter>)>|
        #[trigger] packet_chain(states, msgs, oks) && states[0] == (a, pa) && states.last() == (b, pb)
}

/// Route the messages of a packet, in order, each as `process_message` does,
/// skipping those the exchange cannot take. The result says, message by message,
/// what its operation returned (`false` for a skipped one).
pub fn process_packet(
    packet: Packet<Price>,
    exchange: &mut ExchangeOrderBook,
    perf: &mut Option<PerfCounter>,
) -> (oks: Vec<bool>)
    requires
        old(exchange).wf(),
    ensures
        final(exchange).wf(),
        packet_run(old(exchange)@, final(exchange)@, *old(perf), *final(perf), packet.messages@, oks@),
{
    let ghost all = packet.messages@;
    let n = packet.messages.len();
    let mut msgs = packet.messages;
    let mut rev: Vec<CoreMessage<Price>> = Vec::new();
    while msgs.len() > 0
        invariant
            msgs@.len() + rev@.len() == n,
            n == all.len(),
            msgs@ == all.take(msgs@.len() as int),
            forall|j: int| 0 <= j < rev@.len() ==> #[trigger] rev@[j] == all[n - 1 - j],
        decreases msgs@.len(),
    {
        let m = msgs.pop().unwrap();
        assert(msgs@ =~= all.take(msgs@.len() as int));
        rev.push(m);
    }
    let mut oks: Vec<bool> = Vec::new();
    let mut i: usize = 0;
    let ghost mut states: Seq<(ExchangeView, Option<PerfCounter>)> = seq![(exchange@, *perf)];
    while i < n
        invariant
            i <= n,
            n == all.len(),
            rev@.len() == n - i,
            forall|j: int| 0 <= j < rev@.len() ==> #[trigger] rev@[j] == all[n - 1 - j],
            exchange.wf(),
            packet_chain(states, all.take(i as int), oks@),
            states[0] == (old(exchange)@, *old(perf)),
            states.last() == (exchange@, *perf),
        decreases n - i,
    {
        assert(rev@[rev@.len() - 1] == all[i as int]);
        let m = rev.pop().unwrap();
        let ghost a = exchange@;
        let ghost pa = *perf;
        let ghost before = states;
        let ghost oks_before = oks@;
        let ok = if exchange.message_allowed(&m) {
            process_message(m, exchange, perf)
        } else {
            false
        };
        oks.push(ok);
        proof {
            assert(packet_step(a, exchange@, pa, *perf, all[i as int], ok));
            states = before.push((exchange@, *perf));
            let t = all.take(i as int + 1);
            assert forall|k: int| 0 <= k < t.len() implies packet_step(
                states[k].0,
                states[k + 1].0,
                states[k].1,
                states[k + 1].1,
                #[trigger] t[k],
                oks@[k],
            ) by {
                if k < i {
                    assert(all.take(i as int)[k] == t[k]);
                    assert(oks_before[k] == oks@[k]);
                }
            }
        }
        i = i + 1;
    }
    assert(all.take(n as int) =~= all);
    assert(packet_chain(states, all, oks@));
    oks
}

} // verus!
