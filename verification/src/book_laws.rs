//! Properties of the book that span operations: what every operation keeps,
//! what one undoes of another, and how trades come about.
use vstd::prelude::*;

use crate::book_model::{
    add_order_ok, add_order_result, best_ask_of, best_bid_of, book_consistent, cancel_result,
    consume, consume_front, crossed, crosses, limit_of, takes_at_once, ioc_can_trade, ioc_match, ioc_order_after, ioc_ready,
    ioc_step,
    ioc_trade, is_max_of, is_min_of, lemma_cancel, lemma_consume_front, lemma_consume_orders,
    lemma_rest_order, lemma_sweep_step_shrinks, lemma_uncrossed_subset, level_volume, levels_of,
    member_ok, volume_at,
    opposite_best, order_rests, other_side, rest_order, sweep, sweep_ready, sweep_step,
    sweep_trade, uncrossed, update_order_ok, update_result, BookView,
};
use crate::order::{fill_model, new_order_model, OrderModel};
use crate::order_queue::{
    is_insert_pos, lemma_index_unique, lemma_sorted_insert, remove_value, sorted_insert,
    strictly_increasing,
};
use crate::trade::Trade;
use crate::types::{OrderType, Side};

verus! {

/// A trade pairs a bid and an ask for the same positive quantity, the bid's price
/// at or above the ask's.
pub open spec fn trade_crossing(t: Trade<u64>) -> bool {
    &&& t.bid_side.price >= t.ask_side.price
    &&& t.bid_side.quantity == t.ask_side.quantity
    &&& t.bid_side.quantity > 0
}

/// `new` keeps every trade of `old` where it was and only adds crossing trades.
pub open spec fn trades_extend(old: Seq<Trade<u64>>, new: Seq<Trade<u64>>) -> bool {
    &&& old.len() <= new.len()
    &&& forall|i: int| 0 <= i < old.len() ==> new[i] == old[i]
    &&& forall|i: int| old.len() <= i < new.len() ==> trade_crossing(#[trigger] new[i])
}

proof fn lemma_trades_extend_trans(a: Seq<Trade<u64>>, b: Seq<Trade<u64>>, c: Seq<Trade<u64>>)
    requires
        trades_extend(a, b),
        trades_extend(b, c),
    ensures
        trades_extend(a, c),
{
    assert forall|i: int| a.len() <= i < c.len() implies trade_crossing(#[trigger] c[i]) by {
        if i < b.len() {
            assert(c[i] == b[i]);
        }
    }
}

proof fn lemma_trades_push(a: Seq<Trade<u64>>, t: Trade<u64>)
    requires
        trade_crossing(t),
    ensures
        trades_extend(a, a.push(t)),
{
    assert(a.push(t)[a.len() as int] == t);
}

/// A finite non-empty set of prices has a lowest one.
pub proof fn lemma_min_exists(s: Set<u64>)
    requires
        s.finite(),
        s.len() > 0,
    ensures
        exists|k: u64| is_min_of(s, k),
    decreases s.len(),
{
    if !(exists|a: u64| s.contains(a)) {
        assert(s =~= Set::<u64>::empty());
    }
    let x = choose|a: u64| s.contains(a);
    let t = s.remove(x);
    if t.len() == 0 {
        assert forall|j: u64| #[trigger] s.contains(j) implies x <= j by {
            if j != x {
                assert(t.contains(j));
            }
        }
        assert(is_min_of(s, x));
    } else {
        lemma_min_exists(t);
        let m = choose|k: u64| is_min_of(t, k);
        if x < m {
            assert forall|j: u64| #[trigger] s.contains(j) implies x <= j by {
                if j != x {
                    assert(t.contains(j));
                }
            }
            assert(is_min_of(s, x));
        } else {
            assert forall|j: u64| #[trigger] s.contains(j) implies m <= j by {
                if j != x {
                    assert(t.contains(j));
                }
            }
            assert(is_min_of(s, m));
        }
    }
}

/// A finite non-empty set of prices has a highest one.
pub proof fn lemma_max_exists(s: Set<u64>)
    requires
        s.finite(),
        s.len() > 0,
    ensures
        exists|k: u64| is_max_of(s, k),
    decreases s.len(),
{
    if !(exists|a: u64| s.contains(a)) {
        assert(s =~= Set::<u64>::empty());
    }
    let x = choose|a: u64| s.contains(a);
    let t = s.remove(x);
    if t.len() == 0 {
        assert forall|j: u64| #[trigger] s.contains(j) implies j <= x by {
            if j != x {
                assert(t.contains(j));
            }
        }
        assert(is_max_of(s, x));
    } else {
        lemma_max_exists(t);
        let m = choose|k: u64| is_max_of(t, k);
        if x > m {
            assert forall|j: u64| #[trigger] s.contains(j) implies j <= x by {
                if j != x {
                    assert(t.contains(j));
                }
            }
            assert(is_max_of(s, x));
        } else {
            assert forall|j: u64| #[trigger] s.contains(j) implies j <= m by {
                if j != x {
                    assert(t.contains(j));
                }
            }
            assert(is_max_of(s, m));
        }
    }
}

/// A consistent book that is not crossed at its best prices has every bid below
/// every ask.
pub proof fn lemma_not_crossed_uncrossed(v: BookView)
    requires
        book_consistent(v),
        !crossed(v),
    ensures
        uncrossed(v),
{
    assert forall|b: u64, a: u64|
        #[trigger] v.bids.contains_key(b) && #[trigger] v.asks.contains_key(a) implies b < a by {
        assert(v.bids.dom().contains(b));
        assert(v.asks.dom().contains(a));
        lemma_max_exists(v.bids.dom());
        lemma_min_exists(v.asks.dom());
        let bb = best_bid_of(v)->0;
        let aa = best_ask_of(v)->0;
        assert(is_max_of(v.bids.dom(), bb));
        assert(is_min_of(v.asks.dom(), aa));
    }
}

/// In a consistent crossed book the fronts of the best levels can trade.
pub proof fn lemma_crossed_ready(v: BookView)
    requires
        book_consistent(v),
        crossed(v),
    ensures
        sweep_ready(v),
        v.orders[v.bids[best_bid_of(v)->0][0]].remaining_quantity > 0,
        v.orders[v.asks[best_ask_of(v)->0][0]].remaining_quantity > 0,
        v.orders[v.bids[best_bid_of(v)->0][0]].price == best_bid_of(v)->0,
        v.orders[v.asks[best_ask_of(v)->0][0]].price == best_ask_of(v)->0,
{
    let bp = best_bid_of(v)->0;
    let ap = best_ask_of(v)->0;
    assert(is_max_of(v.bids.dom(), bp));
    assert(is_min_of(v.asks.dom(), ap));
    assert(member_ok(v.orders, v.bids[bp][0], Side::Bid, bp));
    assert(member_ok(v.orders, v.asks[ap][0], Side::Ask, ap));
    assert(order_rests(v, v.bids[bp][0]));
    assert(order_rests(v, v.asks[ap][0]));
}

/// Matching a consistent book leaves it consistent and uncrossed, and only appends
/// trades, each between a bid and an ask for the same positive quantity at a bid
/// price at or above the ask price.
pub proof fn law_sweep(v: BookView)
    requires
        book_consistent(v),
    ensures
        book_consistent(sweep(v)),
        uncrossed(sweep(v)),
        trades_extend(v.trades, sweep(v).trades),
        sweep(v).symbol == v.symbol,
    decreases v.orders.dom().len(),
{
    if crossed(v) {
        lemma_crossed_ready(v);
        let bp = best_bid_of(v)->0;
        let ap = best_ask_of(v)->0;
        let t = sweep_trade(v);
        let q = t.bid_side.quantity;
        let v1 = BookView { trades: v.trades.push(t), ..v };
        lemma_consume_front(v1, Side::Ask, ap, q, Map::empty(), Map::empty());
        let v2 = consume_front(v1, Side::Ask, ap, q);
        assert(v2.orders[v.bids[bp][0]] == v.orders[v.bids[bp][0]]) by {
            lemma_consume_orders(v1.orders, v.asks[ap][0], q);
        }
        lemma_consume_front(v2, Side::Bid, bp, q, Map::empty(), Map::empty());
        lemma_sweep_step_shrinks(v);
        lemma_trades_push(v.trades, t);
        law_sweep(sweep_step(v));
        lemma_trades_extend_trans(v.trades, sweep_step(v).trades, sweep(sweep_step(v)).trades);
    } else {
        lemma_not_crossed_uncrossed(v);
    }
}

/// Matching an order that trades at once (immediate-or-cancel or market) against
/// a consistent book keeps it consistent, never adds a resting order or a price
/// level, and only appends crossing trades.
pub proof fn law_ioc_match(v: BookView, o: OrderModel)
    requires
        book_consistent(v),
    ensures
        book_consistent(ioc_match(v, o)),
        ioc_match(v, o).orders.dom().subset_of(v.orders.dom()),
        ioc_match(v, o).bids.dom().subset_of(v.bids.dom()),
        ioc_match(v, o).asks.dom().subset_of(v.asks.dom()),
        trades_extend(v.trades, ioc_match(v, o).trades),
        ioc_match(v, o).symbol == v.symbol,
    decreases v.orders.dom().len(), o.remaining_quantity,
{
    if ioc_can_trade(v, o) && ioc_ready(v, o) {
        let side = other_side(o.side);
        let p = opposite_best(v, o.side);
        let levels = levels_of(v, side);
        let id = levels[p][0];
        let t = ioc_trade(v, o);
        let q = t.bid_side.quantity;
        if o.side == Side::Bid {
            assert(is_min_of(v.asks.dom(), p));
        } else {
            assert(is_max_of(v.bids.dom(), p));
        }
        assert(member_ok(v.orders, levels[p][0], side, p));
        assert(order_rests(v, id));
        let v1 = BookView { trades: v.trades.push(t), ..v };
        lemma_consume_front(v1, side, p, q, Map::empty(), Map::empty());
        lemma_consume_orders(v.orders, id, q);
        lemma_trades_push(v.trades, t);
        let (v2, o2) = ioc_step(v, o);
        law_ioc_match(v2, o2);
        lemma_trades_extend_trans(v.trades, v2.trades, ioc_match(v2, o2).trades);
    }
}

/// Adding an order to a book at rest leaves it consistent and uncrossed and only
/// appends crossing trades; an immediate-or-cancel or market order never comes to
/// rest.
pub proof fn law_add_order(v: BookView, o: OrderModel)
    requires
        book_consistent(v),
        uncrossed(v),
        add_order_ok(v, o),
    ensures
        book_consistent(add_order_result(v, o).0),
        uncrossed(add_order_result(v, o).0),
        trades_extend(v.trades, add_order_result(v, o).0.trades),
        takes_at_once(o.order_type) ==> add_order_result(v, o).0.orders.dom().subset_of(
            v.orders.dom(),
        ),
{
    if v.orders.contains_key(o.order_id) {
    } else if takes_at_once(o.order_type) {
        if crosses(v, o.side, limit_of(o)) {
            law_ioc_match(v, o);
            lemma_uncrossed_subset(v, ioc_match(v, o));
        }
    } else if o.side == Side::Invalid {
    } else {
        lemma_rest_order(v, o, Map::empty(), Map::empty());
        law_sweep(rest_order(v, o));
    }
}

/// Cancelling keeps a book at rest consistent and uncrossed, and its trades as they were.
pub proof fn law_cancel(v: BookView, id: u64)
    requires
        book_consistent(v),
        uncrossed(v),
    ensures
        book_consistent(cancel_result(v, id).0),
        uncrossed(cancel_result(v, id).0),
        cancel_result(v, id).0.trades == v.trades,
        cancel_result(v, id).1 == v.orders.contains_key(id),
        !cancel_result(v, id).0.orders.contains_key(id),
{
    if v.orders.contains_key(id) {
        lemma_cancel(v, id, Map::empty(), Map::empty());
        lemma_uncrossed_subset(v, cancel_result(v, id).0);
    }
}

/// Modifying an order keeps a book at rest consistent and uncrossed, and only
/// appends crossing trades.
pub proof fn law_update(v: BookView, id: u64, side: Side, price: u64, quantity: u64, time: u64)
    requires
        book_consistent(v),
        uncrossed(v),
        update_order_ok(v, id, side, price, quantity, time),
    ensures
        book_consistent(update_result(v, id, side, price, quantity, time).0),
        uncrossed(update_result(v, id, side, price, quantity, time).0),
        trades_extend(v.trades, update_result(v, id, side, price, quantity, time).0.trades),
{
    if v.orders.contains_key(id) {
        law_cancel(v, id);
        let v1 = cancel_result(v, id).0;
        let o = new_order_model(v.orders[id].order_type, side, id, price, quantity, time);
        law_add_order(v1, o);
    }
}

/// Removing an id right after putting it into an id queue gives the queue back.
pub proof fn lemma_remove_after_insert(s: Seq<u64>, x: u64)
    requires
        strictly_increasing(s),
        !s.contains(x),
    ensures
        remove_value(sorted_insert(s, x), x) == s,
{
    lemma_sorted_insert(s, x);
    let i = choose|i: int| is_insert_pos(s, x, i) && sorted_insert(s, x) == s.insert(i, x);
    let r = s.insert(i, x);
    assert(r[i] == x);
    lemma_index_unique(r, x, i);
    assert(r.remove(i) =~= s);
}

/// Cancelling an order that was just added to a book at rest, and came to rest
/// without trading, gives back exactly the book from before.
pub proof fn law_cancel_undoes_add(v: BookView, o: OrderModel)
    requires
        book_consistent(v),
        uncrossed(v),
        !v.orders.contains_key(o.order_id),
        !takes_at_once(o.order_type),
        o.side == Side::Bid || o.side == Side::Ask,
        0 < o.remaining_quantity <= o.initial_quantity,
        !crosses(v, o.side, o.price),
    ensures
        add_order_result(v, o) == (rest_order(v, o), true),
        cancel_result(add_order_result(v, o).0, o.order_id) == (v, true),
{
    let v2 = rest_order(v, o);
    lemma_rest_order(v, o, Map::empty(), Map::empty());
    // The new order does not cross: the book stays at rest and nothing trades.
    assert(uncrossed(v2)) by {
        assert forall|b: u64, a: u64|
            #[trigger] v2.bids.contains_key(b) && #[trigger] v2.asks.contains_key(a) implies b
            < a by {
            if o.side == Side::Bid {
                assert(v.asks.contains_key(a));
                if b == o.price {
                    assert(v.asks.dom().contains(a));
                    lemma_min_exists(v.asks.dom());
                    let m = best_ask_of(v)->0;
                    assert(is_min_of(v.asks.dom(), m));
                } else {
                    assert(v.bids.contains_key(b));
                }
            } else {
                assert(v.bids.contains_key(b));
                if a == o.price {
                    assert(v.bids.dom().contains(b));
                    lemma_max_exists(v.bids.dom());
                    let m = best_bid_of(v)->0;
                    assert(is_max_of(v.bids.dom(), m));
                } else {
                    assert(v.asks.contains_key(a));
                }
            }
        }
    }
    crate::book_model::lemma_uncrossed_not_crossed(v2);
    assert(sweep(v2) == v2);
    // Cancelling takes the order out of its queue, and the queue or level goes
    // back to what it was.
    let side = o.side;
    let p = o.price;
    let levels = levels_of(v, side);
    let queue = if levels.contains_key(p) {
        levels[p]
    } else {
        Seq::<u64>::empty()
    };
    assert(!queue.contains(o.order_id)) by {
        if queue.contains(o.order_id) {
            let k = choose|k: int| 0 <= k < queue.len() && queue[k] == o.order_id;
            assert(member_ok(v.orders, queue[k], side, p));
        }
    }
    assert(strictly_increasing(queue));
    lemma_remove_after_insert(queue, o.order_id);
    let v3 = cancel_result(v2, o.order_id).0;
    assert(v3.orders =~= v.orders);
    if levels.contains_key(p) {
        assert(levels_of(v3, side) =~= levels);
    } else {
        assert(levels_of(v3, side) =~= levels);
    }
    assert(levels_of(v3, other_side(side)) == levels_of(v, other_side(side)));
    if side == Side::Bid {
        assert(v3 =~= v);
    } else {
        assert(v3 =~= v);
    }
}

/// Total quantity of a list of trades.
pub open spec fn traded_quantity(ts: Seq<Trade<u64>>) -> nat
    decreases ts.len(),
{
    if ts.len() == 0 {
        0
    } else {
        traded_quantity(ts.drop_last()) + ts.last().bid_side.quantity as nat
    }
}

/// An order that trades at once is filled by exactly what it trades: the
/// quantities of the trades it adds sum to what it had left less what it has
/// left afterwards. It keeps its id, side, price and type, and never ends with
/// more than it came with.
pub proof fn law_ioc_fills_what_it_trades(v: BookView, o: OrderModel)
    ensures
        traded_quantity(ioc_match(v, o).trades) + ioc_order_after(v, o).remaining_quantity
            == traded_quantity(v.trades) + o.remaining_quantity,
        ioc_order_after(v, o).remaining_quantity <= o.remaining_quantity,
        ioc_order_after(v, o) == (OrderModel {
            remaining_quantity: ioc_order_after(v, o).remaining_quantity,
            ..o
        }),
    decreases v.orders.dom().len(), o.remaining_quantity,
{
    if ioc_can_trade(v, o) && ioc_ready(v, o) {
        let p = opposite_best(v, o.side);
        let id = levels_of(v, other_side(o.side))[p][0];
        let t = ioc_trade(v, o);
        let q = t.bid_side.quantity;
        lemma_consume_orders(v.orders, id, q);
        let (v2, o2) = ioc_step(v, o);
        assert(v2.trades == v.trades.push(t));
        assert(v.trades.push(t).drop_last() =~= v.trades);
        law_ioc_fills_what_it_trades(v2, o2);
    }
}

/// In a consistent book (every book that the operations leave behind) a resting
/// order has something left, and never more than it started with.
pub proof fn law_resting_within_initial(v: BookView, id: u64)
    requires
        book_consistent(v),
        v.orders.contains_key(id),
    ensures
        0 < v.orders[id].remaining_quantity <= v.orders[id].initial_quantity,
{
    assert(order_rests(v, id));
}

/// The ids of the orders resting on `side` at `price`.
pub open spec fn orders_at(v: BookView, side: Side, price: u64) -> Set<u64> {
    Set::new(
        |id: u64|
            v.orders.contains_key(id) && v.orders[id].side == side && v.orders[id].price == price,
    )
}

/// In a consistent book, the volume at a price on a side is the sum of what the
/// orders resting there have left, each order counted once.
pub proof fn law_volume_is_sum_of_orders(v: BookView, side: Side, price: u64)
    requires
        book_consistent(v),
        side == Side::Bid || side == Side::Ask,
    ensures
        exists|ids: Seq<u64>|
            #![trigger level_volume(v.orders, ids)]
            ids.no_duplicates() && ids.to_set() == orders_at(v, side, price) && level_volume(
                v.orders,
                ids,
            ) == volume_at(v, side, price),
{
    let levels = levels_of(v, side);
    let ids = if levels.contains_key(price) {
        levels[price]
    } else {
        Seq::<u64>::empty()
    };
    assert(ids.no_duplicates()) by {
        if levels.contains_key(price) {
            assert(strictly_increasing(ids));
        }
    }
    assert forall|id: u64| ids.to_set().contains(id) == orders_at(v, side, price).contains(id) by {
        if ids.to_set().contains(id) {
            let k = choose|k: int| 0 <= k < ids.len() && ids[k] == id;
            assert(member_ok(v.orders, ids[k], side, price));
        }
        if orders_at(v, side, price).contains(id) {
            assert(order_rests(v, id));
            assert(levels_of(v, v.orders[id].side) == levels);
            let k = choose|k: int| 0 <= k < levels[price].len() && levels[price][k] == id;
            assert(ids[k] == id);
        }
    }
    assert(ids.to_set() =~= orders_at(v, side, price));
    assert(level_volume(v.orders, ids) == volume_at(v, side, price));
}

/// Matching never changes a trade already made.
proof fn lemma_sweep_keeps_trades(v: BookView)
    ensures
        sweep(v).trades.len() >= v.trades.len(),
        forall|i: int| 0 <= i < v.trades.len() ==> #[trigger] sweep(v).trades[i] == v.trades[i],
    decreases v.orders.dom().len(),
{
    if crossed(v) && sweep_ready(v) {
        lemma_sweep_step_shrinks(v);
        lemma_sweep_keeps_trades(sweep_step(v));
        assert(sweep_step(v).trades == v.trades.push(sweep_trade(v)));
    }
}

/// Price-time priority: when some bid is at or above some ask, matching trades
/// first the front (earliest) order of the highest bid level against the front
/// order of the lowest ask level, for as much as the smaller of them has left; no
/// better-priced order is passed over.
pub proof fn law_sweep_trades_best_fronts_first(v: BookView, b: u64, a: u64)
    requires
        book_consistent(v),
        v.bids.contains_key(b),
        v.asks.contains_key(a),
        b >= a,
    ensures
        sweep(v).trades.len() > v.trades.len(),
        ({
            let t = sweep(v).trades[v.trades.len() as int];
            let bp = t.bid_side.price;
            let ap = t.ask_side.price;
            let bid = v.orders[t.bid_side.order_id];
            let ask = v.orders[t.ask_side.order_id];
            &&& v.bids.contains_key(bp)
            &&& forall|k: u64| #[trigger] v.bids.contains_key(k) ==> k <= bp
            &&& v.asks.contains_key(ap)
            &&& forall|k: u64| #[trigger] v.asks.contains_key(k) ==> ap <= k
            &&& t.bid_side.order_id == v.bids[bp][0]
            &&& t.ask_side.order_id == v.asks[ap][0]
            &&& t.bid_side.quantity == t.ask_side.quantity
            &&& t.bid_side.quantity == if bid.remaining_quantity <= ask.remaining_quantity {
                bid.remaining_quantity
            } else {
                ask.remaining_quantity
            }
        }),
{
    if !crossed(v) {
        lemma_not_crossed_uncrossed(v);
        assert(false);
    }
    lemma_crossed_ready(v);
    let bp = best_bid_of(v)->0;
    let ap = best_ask_of(v)->0;
    assert(is_max_of(v.bids.dom(), bp));
    assert(is_min_of(v.asks.dom(), ap));
    lemma_sweep_step_shrinks(v);
    let w = sweep_step(v);
    assert(sweep(v) == sweep(w));
    assert(w.trades == v.trades.push(sweep_trade(v)));
    lemma_sweep_keeps_trades(w);
    assert(sweep(v).trades[v.trades.len() as int] == w.trades[v.trades.len() as int]);
}

/// Matching an incoming order never changes a trade already made.
proof fn lemma_ioc_keeps_trades(v: BookView, o: OrderModel)
    ensures
        ioc_match(v, o).trades.len() >= v.trades.len(),
        forall|i: int| 0 <= i < v.trades.len() ==> #[trigger] ioc_match(v, o).trades[i] == v.trades[i],
    decreases v.orders.dom().len(), o.remaining_quantity,
{
    if ioc_can_trade(v, o) && ioc_ready(v, o) {
        let p = opposite_best(v, o.side);
        let id = levels_of(v, other_side(o.side))[p][0];
        let q = ioc_trade(v, o).bid_side.quantity;
        lemma_consume_orders(v.orders, id, q);
        let (v2, o2) = ioc_step(v, o);
        assert(v2.trades == v.trades.push(ioc_trade(v, o)));
        lemma_ioc_keeps_trades(v2, o2);
    }
}

/// An immediate-or-cancel order whose limit reaches some resting order on the
/// other side (a buy limit at or above an ask, a sell limit at or below a bid), or
/// a market order facing a non-empty other side, is accepted and trades at once:
/// its first trade is against the front (earliest) order of the best opposite
/// level, for as much as the smaller of the two has left, at the incoming order's
/// limit (at the resting order's price, for a market order).
pub proof fn law_order_that_reaches_trades_at_once(v: BookView, o: OrderModel, p: u64)
    requires
        book_consistent(v),
        !v.orders.contains_key(o.order_id),
        o.remaining_quantity > 0,
        o.side == Side::Bid ==> v.asks.contains_key(p),
        o.side == Side::Ask ==> v.bids.contains_key(p),
        o.side == Side::Bid || o.side == Side::Ask,
        o.order_type == OrderType::Market || (o.order_type == OrderType::Ioc && (if o.side
            == Side::Bid {
            p <= o.price
        } else {
            o.price <= p
        })),
    ensures
        add_order_result(v, o).1,
        add_order_result(v, o).0.trades.len() > v.trades.len(),
        ({
            let t = add_order_result(v, o).0.trades[v.trades.len() as int];
            let levels = if o.side == Side::Bid {
                v.asks
            } else {
                v.bids
            };
            let mine = if o.side == Side::Bid {
                t.bid_side
            } else {
                t.ask_side
            };
            let theirs = if o.side == Side::Bid {
                t.ask_side
            } else {
                t.bid_side
            };
            let r = v.orders[theirs.order_id];
            &&& levels.contains_key(theirs.price)
            &&& (o.side == Side::Bid ==> forall|k: u64| #[trigger] levels.contains_key(k) ==> theirs.price <= k)
            &&& (o.side == Side::Ask ==> forall|k: u64| #[trigger] levels.contains_key(k) ==> k <= theirs.price)
            &&& theirs.order_id == levels[theirs.price][0]
            &&& mine.order_id == o.order_id
            &&& mine.price == if o.order_type == OrderType::Market {
                theirs.price
            } else {
                o.price
            }
            &&& t.bid_side.quantity == t.ask_side.quantity
            &&& t.bid_side.quantity == if r.remaining_quantity <= o.remaining_quantity {
                r.remaining_quantity
            } else {
                o.remaining_quantity
            }
        }),
{
    if o.side == Side::Bid {
        assert(v.asks.dom().contains(p));
        lemma_min_exists(v.asks.dom());
        let ap = best_ask_of(v)->0;
        assert(is_min_of(v.asks.dom(), ap));
        assert(member_ok(v.orders, v.asks[ap][0], Side::Ask, ap));
    } else {
        assert(v.bids.dom().contains(p));
        lemma_max_exists(v.bids.dom());
        let bp = best_bid_of(v)->0;
        assert(is_max_of(v.bids.dom(), bp));
        assert(member_ok(v.orders, v.bids[bp][0], Side::Bid, bp));
    }
    assert(crosses(v, o.side, limit_of(o)));
    assert(ioc_can_trade(v, o) && ioc_ready(v, o));
    let pb = opposite_best(v, o.side);
    let id = levels_of(v, other_side(o.side))[pb][0];
    let q = ioc_trade(v, o).bid_side.quantity;
    lemma_consume_orders(v.orders, id, q);
    let (v2, o2) = ioc_step(v, o);
    assert(ioc_match(v, o) == ioc_match(v2, o2));
    assert(v2.trades == v.trades.push(ioc_trade(v, o)));
    lemma_ioc_keeps_trades(v2, o2);
    assert(ioc_match(v, o).trades[v.trades.len() as int] == v2.trades[v.trades.len() as int]);
}

/// Matching only fills orders: every order left after it was there before, the
/// same order with no more left than it had.
proof fn lemma_sweep_only_fills(v: BookView)
    ensures
        forall|id: u64| #[trigger] sweep(v).orders.contains_key(id) ==> {
            &&& v.orders.contains_key(id)
            &&& sweep(v).orders[id] == (OrderModel {
                remaining_quantity: sweep(v).orders[id].remaining_quantity,
                ..v.orders[id]
            })
            &&& sweep(v).orders[id].remaining_quantity <= v.orders[id].remaining_quantity
        },
    decreases v.orders.dom().len(),
{
    if crossed(v) && sweep_ready(v) {
        lemma_sweep_step_shrinks(v);
        lemma_sweep_only_fills(sweep_step(v));
        let bp = best_bid_of(v)->0;
        let ap = best_ask_of(v)->0;
        let bid_id = v.bids[bp][0];
        let ask_id = v.asks[ap][0];
        let q = sweep_trade(v).bid_side.quantity;
        lemma_consume_orders(v.orders, ask_id, q);
        let o1 = consume(v.orders, ask_id, q);
        lemma_consume_orders(o1, bid_id, q);
        let w = sweep_step(v);
        assert(w.orders == consume(o1, bid_id, q));
        assert forall|id: u64| #[trigger] w.orders.contains_key(id) implies {
            &&& v.orders.contains_key(id)
            &&& w.orders[id] == (OrderModel { remaining_quantity: w.orders[id].remaining_quantity, ..v.orders[id] })
            &&& w.orders[id].remaining_quantity <= v.orders[id].remaining_quantity
        } by {
            if id == ask_id {
                assert(o1[id] == fill_model(v.orders[id], q));
            } else if id == bid_id {
                assert(o1[id] == v.orders[id]);
            }
        }
    }
}

/// Modifying a resting order replaces it: if an order with that id rests in the
/// book afterwards, it is the new one, with the side, price, quantity and time of
/// the modification and the type of the order it replaces, and with no more left
/// than the new quantity.
pub proof fn law_update_replaces_order(
    v: BookView,
    id: u64,
    side: Side,
    price: u64,
    quantity: u64,
    time: u64,
)
    requires
        book_consistent(v),
        uncrossed(v),
        v.orders.contains_key(id),
    ensures
        ({
            let r = update_result(v, id, side, price, quantity, time).0;
            r.orders.contains_key(id) ==> {
                &&& r.orders[id].order_id == id
                &&& r.orders[id].order_type == v.orders[id].order_type
                &&& r.orders[id].side == side
                &&& r.orders[id].price == price
                &&& r.orders[id].initial_quantity == quantity
                &&& r.orders[id].creation_time == time
                &&& r.orders[id].remaining_quantity <= quantity
            }
        }),
{
    let u = cancel_result(v, id).0;
    law_cancel(v, id);
    let o = new_order_model(v.orders[id].order_type, side, id, price, quantity, time);
    if takes_at_once(o.order_type) {
        if crosses(u, o.side, limit_of(o)) {
            law_ioc_match(u, o);
        }
    } else if o.side != Side::Invalid {
        let w = rest_order(u, o);
        assert(w.orders == u.orders.insert(id, o));
        lemma_sweep_only_fills(w);
    }
}

/// One match of a consistent crossed book leaves it consistent.
proof fn lemma_sweep_step_consistent(v: BookView)
    requires
        book_consistent(v),
        crossed(v),
    ensures
        sweep_ready(v),
        book_consistent(sweep_step(v)),
        sweep_step(v).orders.dom().len() < v.orders.dom().len(),
{
    lemma_crossed_ready(v);
    let bp = best_bid_of(v)->0;
    let ap = best_ask_of(v)->0;
    let t = sweep_trade(v);
    let q = t.bid_side.quantity;
    let v1 = BookView { trades: v.trades.push(t), ..v };
    lemma_consume_front(v1, Side::Ask, ap, q, Map::empty(), Map::empty());
    let v2 = consume_front(v1, Side::Ask, ap, q);
    assert(v2.orders[v.bids[bp][0]] == v.orders[v.bids[bp][0]]) by {
        lemma_consume_orders(v1.orders, v.asks[ap][0], q);
    }
    lemma_consume_front(v2, Side::Bid, bp, q, Map::empty(), Map::empty());
    lemma_sweep_step_shrinks(v);
}

/// No order that matching leaves resting had priority over an order that traded:
/// for every trade a sweep makes, each bid still resting afterwards is priced
/// below that trade's bid, or at the same price and queued no earlier (an id no
/// smaller); and likewise each ask still resting is priced above that trade's
/// ask, or at the same price and queued no earlier.
pub proof fn law_sweep_respects_priority(v: BookView)
    requires
        book_consistent(v),
    ensures
        ({
            let w = sweep(v);
            forall|k: int, id: u64|
                #![trigger w.trades[k], w.orders.contains_key(id)]
                v.trades.len() <= k < w.trades.len() && w.orders.contains_key(id) ==> {
                    let t = w.trades[k];
                    let o = w.orders[id];
                    &&& o.side == Side::Bid ==> (o.price < t.bid_side.price || (o.price
                        == t.bid_side.price && id >= t.bid_side.order_id))
                    &&& o.side == Side::Ask ==> (o.price > t.ask_side.price || (o.price
                        == t.ask_side.price && id >= t.ask_side.order_id))
                }
        }),
    decreases v.orders.dom().len(),
{
    if crossed(v) {
        lemma_sweep_step_consistent(v);
        let u = sweep_step(v);
        law_sweep_respects_priority(u);
        lemma_sweep_only_fills(v);
        lemma_sweep_only_fills(u);
        lemma_sweep_keeps_trades(u);
        let w = sweep(v);
        assert(w == sweep(u));
        let bp = best_bid_of(v)->0;
        let ap = best_ask_of(v)->0;
        lemma_crossed_ready(v);
        assert(is_max_of(v.bids.dom(), bp));
        assert(is_min_of(v.asks.dom(), ap));
        let t0 = sweep_trade(v);
        assert(u.trades == v.trades.push(t0));
        assert(w.trades[v.trades.len() as int] == t0);
        assert forall|k: int, id: u64|
            #![trigger w.trades[k], w.orders.contains_key(id)]
            v.trades.len() <= k < w.trades.len() && w.orders.contains_key(id) implies {
                let t = w.trades[k];
                let o = w.orders[id];
                &&& o.side == Side::Bid ==> (o.price < t.bid_side.price || (o.price
                    == t.bid_side.price && id >= t.bid_side.order_id))
                &&& o.side == Side::Ask ==> (o.price > t.ask_side.price || (o.price
                    == t.ask_side.price && id >= t.ask_side.order_id))
            } by {
            if k == v.trades.len() {
                let o = w.orders[id];
                assert(v.orders.contains_key(id));
                assert(o.side == v.orders[id].side && o.price == v.orders[id].price);
                assert(order_rests(v, id));
                if o.side == Side::Bid {
                    assert(v.bids.contains_key(o.price));
                    let q = v.bids[bp];
                    assert(strictly_increasing(q));
                    if o.price == bp {
                        let j = choose|j: int| 0 <= j < q.len() && q[j] == id;
                        if j > 0 {
                            assert(q[0] < q[j]);
                        }
                    }
                } else if o.side == Side::Ask {
                    assert(v.asks.contains_key(o.price));
                    let q = v.asks[ap];
                    assert(strictly_increasing(q));
                    if o.price == ap {
                        let j = choose|j: int| 0 <= j < q.len() && q[j] == id;
                        if j > 0 {
                            assert(q[0] < q[j]);
                        }
                    }
                }
            } else {
                assert(w.trades[k] == w.trades[k]);
            }
        }
    }
}

/// The limit of an incoming order reaches a resting order of the other side.
pub open spec fn reaches(o: OrderModel, r: OrderModel) -> bool {
    &&& r.side != o.side
    &&& (o.side == Side::Bid || o.side == Side::Ask)
    &&& (r.side == Side::Bid || r.side == Side::Ask)
    &&& (o.order_type == OrderType::Market || (if o.side == Side::Bid {
        r.price <= o.price
    } else {
        o.price <= r.price
    }))
}

/// An immediate-or-cancel or market order stops trading only when it is done:
/// either all it had left has traded (the quantities of its trades add up to it),
/// or no order its limit reaches is left resting on the other side.
pub proof fn law_order_that_trades_at_once_stops_only_when_done(v: BookView, o: OrderModel)
    requires
        book_consistent(v),
        o.side == Side::Bid || o.side == Side::Ask,
        o.order_type == OrderType::Ioc || o.order_type == OrderType::Market,
    ensures
        ({
            let w = ioc_match(v, o);
            ||| traded_quantity(w.trades) == traded_quantity(v.trades) + o.remaining_quantity
            ||| forall|id: u64| #[trigger] w.orders.contains_key(id) ==> !reaches(o, w.orders[id])
        }),
    decreases v.orders.dom().len(), o.remaining_quantity,
{
    if ioc_can_trade(v, o) && ioc_ready(v, o) {
        let side = other_side(o.side);
        let p = opposite_best(v, o.side);
        let levels = levels_of(v, side);
        let id = levels[p][0];
        let t = ioc_trade(v, o);
        let q = t.bid_side.quantity;
        if o.side == Side::Bid {
            assert(is_min_of(v.asks.dom(), p));
        } else {
            assert(is_max_of(v.bids.dom(), p));
        }
        assert(member_ok(v.orders, levels[p][0], side, p));
        assert(order_rests(v, id));
        let v1 = BookView { trades: v.trades.push(t), ..v };
        lemma_consume_front(v1, side, p, q, Map::empty(), Map::empty());
        lemma_consume_orders(v.orders, id, q);
        let (v2, o2) = ioc_step(v, o);
        law_order_that_trades_at_once_stops_only_when_done(v2, o2);
        assert(v2.trades == v.trades.push(t));
        assert(v.trades.push(t).drop_last() =~= v.trades);
        assert(traded_quantity(v2.trades) == traded_quantity(v.trades) + q);
        assert(ioc_match(v, o) == ioc_match(v2, o2));
        assert forall|k: u64| #[trigger] ioc_match(v2, o2).orders.contains_key(k) && !reaches(
            o2,
            ioc_match(v2, o2).orders[k],
        ) implies !reaches(o, ioc_match(v2, o2).orders[k]) by {
        }
    } else if o.remaining_quantity > 0 {
        if ioc_can_trade(v, o) {
            let side = other_side(o.side);
            let p = opposite_best(v, o.side);
            if o.side == Side::Bid {
                assert(is_min_of(v.asks.dom(), p));
            } else {
                assert(is_max_of(v.bids.dom(), p));
            }
            assert(member_ok(v.orders, levels_of(v, side)[p][0], side, p));
        } else {
            assert forall|k: u64| #[trigger] v.orders.contains_key(k) implies !reaches(
                o,
                v.orders[k],
            ) by {
                if reaches(o, v.orders[k]) {
                    assert(order_rests(v, k));
                    let r = v.orders[k];
                    if o.side == Side::Bid {
                        assert(v.asks.dom().contains(r.price));
                        lemma_min_exists(v.asks.dom());
                        assert(is_min_of(v.asks.dom(), best_ask_of(v)->0));
                    } else {
                        assert(v.bids.dom().contains(r.price));
                        lemma_max_exists(v.bids.dom());
                        assert(is_max_of(v.bids.dom(), best_bid_of(v)->0));
                    }
                    assert(crosses(v, o.side, limit_of(o)));
                }
            }
        }
    }
}

/// Matching an incoming order only fills resting orders: every order left after it
/// was there before, the same order with no more left than it had.
proof fn lemma_ioc_only_fills(v: BookView, o: OrderModel)
    ensures
        forall|id: u64| #[trigger] ioc_match(v, o).orders.contains_key(id) ==> {
            &&& v.orders.contains_key(id)
            &&& ioc_match(v, o).orders[id] == (OrderModel {
                remaining_quantity: ioc_match(v, o).orders[id].remaining_quantity,
                ..v.orders[id]
            })
        },
    decreases v.orders.dom().len(), o.remaining_quantity,
{
    if ioc_can_trade(v, o) && ioc_ready(v, o) {
        let p = opposite_best(v, o.side);
        let id = levels_of(v, other_side(o.side))[p][0];
        let q = ioc_trade(v, o).bid_side.quantity;
        lemma_consume_orders(v.orders, id, q);
        let (v2, o2) = ioc_step(v, o);
        lemma_ioc_only_fills(v2, o2);
        assert(v2.orders == consume(v.orders, id, q));
        assert forall|k: u64| #[trigger] v2.orders.contains_key(k) implies {
            &&& v.orders.contains_key(k)
            &&& v2.orders[k] == (OrderModel { remaining_quantity: v2.orders[k].remaining_quantity, ..v.orders[k] })
        } by {
            if k == id {
                assert(v2.orders[k] == fill_model(v.orders[k], q));
            }
        }
    }
}

/// No order left resting after an incoming order has traded had priority over an
/// order it traded with: for every trade it makes, each order of the other side
/// still resting afterwards is at a worse price than the order traded (higher, for
/// asks; lower, for bids), or at the same price and queued no earlier.
pub proof fn law_order_that_trades_at_once_respects_priority(v: BookView, o: OrderModel)
    requires
        book_consistent(v),
        o.side == Side::Bid || o.side == Side::Ask,
    ensures
        ({
            let w = ioc_match(v, o);
            forall|k: int, id: u64|
                #![trigger w.trades[k], w.orders.contains_key(id)]
                v.trades.len() <= k < w.trades.len() && w.orders.contains_key(id) ==> {
                    let t = w.trades[k];
                    let r = w.orders[id];
                    &&& (o.side == Side::Bid && r.side == Side::Ask) ==> (r.price > t.ask_side.price
                        || (r.price == t.ask_side.price && id >= t.ask_side.order_id))
                    &&& (o.side == Side::Ask && r.side == Side::Bid) ==> (r.price < t.bid_side.price
                        || (r.price == t.bid_side.price && id >= t.bid_side.order_id))
                }
        }),
    decreases v.orders.dom().len(), o.remaining_quantity,
{
    if ioc_can_trade(v, o) && ioc_ready(v, o) {
        let side = other_side(o.side);
        let p = opposite_best(v, o.side);
        let levels = levels_of(v, side);
        let fid = levels[p][0];
        let t0 = ioc_trade(v, o);
        let q = t0.bid_side.quantity;
        if o.side == Side::Bid {
            assert(is_min_of(v.asks.dom(), p));
        } else {
            assert(is_max_of(v.bids.dom(), p));
        }
        assert(member_ok(v.orders, levels[p][0], side, p));
        assert(order_rests(v, fid));
        let v1 = BookView { trades: v.trades.push(t0), ..v };
        lemma_consume_front(v1, side, p, q, Map::empty(), Map::empty());
        lemma_consume_orders(v.orders, fid, q);
        let (v2, o2) = ioc_step(v, o);
        law_order_that_trades_at_once_respects_priority(v2, o2);
        lemma_ioc_only_fills(v, o);
        lemma_ioc_keeps_trades(v2, o2);
        let w = ioc_match(v, o);
        assert(w == ioc_match(v2, o2));
        assert(v2.trades == v.trades.push(t0));
        assert(w.trades[v.trades.len() as int] == t0);
        assert forall|k: int, id: u64|
            #![trigger w.trades[k], w.orders.contains_key(id)]
            v.trades.len() <= k < w.trades.len() && w.orders.contains_key(id) implies {
                let t = w.trades[k];
                let r = w.orders[id];
                &&& (o.side == Side::Bid && r.side == Side::Ask) ==> (r.price > t.ask_side.price
                    || (r.price == t.ask_side.price && id >= t.ask_side.order_id))
                &&& (o.side == Side::Ask && r.side == Side::Bid) ==> (r.price < t.bid_side.price
                    || (r.price == t.bid_side.price && id >= t.bid_side.order_id))
            } by {
            if k == v.trades.len() {
                let r = w.orders[id];
                assert(v.orders.contains_key(id));
                assert(order_rests(v, id));
                if r.side == side {
                    assert(levels.contains_key(r.price));
                    let qu = levels[p];
                    assert(strictly_increasing(qu));
                    if r.price == p {
                        let j = choose|j: int| 0 <= j < qu.len() && qu[j] == id;
                        if j > 0 {
                            assert(qu[0] < qu[j]);
                        }
                    }
                }
            } else {
                assert(w.trades[k] == w.trades[k]);
            }
        }
    }
}

/// A modification that reaches no other resting order of the other side takes
/// effect without trading: the book then holds the new order, with the side,
/// price, quantity and time of the modification and the type of the order it
/// replaces, in place of the old one; every other order and every trade stay as
/// they were.
pub proof fn law_update_without_crossing_replaces_in_place(
    v: BookView,
    id: u64,
    side: Side,
    price: u64,
    quantity: u64,
    time: u64,
)
    requires
        book_consistent(v),
        uncrossed(v),
        v.orders.contains_key(id),
        v.orders[id].order_type != OrderType::Ioc,
        v.orders[id].order_type != OrderType::Market,
        side == Side::Bid || side == Side::Ask,
        quantity > 0,
        forall|k: u64|
            #[trigger] v.orders.contains_key(k) && k != id && v.orders[k].side != side ==> (if side
                == Side::Bid {
                v.orders[k].price > price
            } else {
                v.orders[k].price < price
            }),
    ensures
        update_result(v, id, side, price, quantity, time).1,
        update_result(v, id, side, price, quantity, time).0.orders == v.orders.insert(
            id,
            OrderModel {
                order_type: v.orders[id].order_type,
                side,
                order_id: id,
                price,
                initial_quantity: quantity,
                remaining_quantity: quantity,
                creation_time: time,
            },
        ),
        update_result(v, id, side, price, quantity, time).0.trades == v.trades,
{
    let u = cancel_result(v, id).0;
    law_cancel(v, id);
    let o = new_order_model(v.orders[id].order_type, side, id, price, quantity, time);
    assert(u.orders == v.orders.remove(id));
    if crosses(u, side, price) {
        let os = other_side(side);
        let p = if side == Side::Bid {
            best_ask_of(u)->0
        } else {
            best_bid_of(u)->0
        };
        if side == Side::Bid {
            assert(is_min_of(u.asks.dom(), p));
        } else {
            assert(is_max_of(u.bids.dom(), p));
        }
        let k = levels_of(u, os)[p][0];
        assert(member_ok(u.orders, k, os, p));
        assert(v.orders.contains_key(k) && k != id);
        assert(false);
    }
    law_cancel_undoes_add(u, o);
    assert(v.orders.remove(id).insert(id, o) =~= v.orders.insert(id, o));
}

} // verus!
