//! The mathematical model of a limit order book and of price-time-priority
//! matching, over which the executable book's contracts are stated.
//!
//! A book is a map from order id to resting order, two maps from price to the
//! queue of resting order ids at that price (bids and asks; each queue in
//! id order, the front being the earliest order), and the trades made so far.
use vstd::prelude::*;

use crate::order::{fill_model, OrderModel};
use crate::order_queue::{
    is_insert_pos, lemma_index_unique, lemma_sorted_insert, remove_value, sorted_insert,
    strictly_increasing,
};
use crate::trade::{Trade, TradeSide};
use crate::types::{OrderType, Side};

verus! {

pub struct BookView {
    pub symbol: Seq<char>,
    pub orders: Map<u64, OrderModel>,
    pub bids: Map<u64, Seq<u64>>,
    pub asks: Map<u64, Seq<u64>>,
    pub trades: Seq<Trade<u64>>,
}

/// The price levels of one side (`Invalid` names the asks, and no order lives there).
pub open spec fn levels_of(v: BookView, side: Side) -> Map<u64, Seq<u64>> {
    if side == Side::Bid {
        v.bids
    } else {
        v.asks
    }
}

/// `v` with the levels of one side replaced.
pub open spec fn with_levels(v: BookView, side: Side, levels: Map<u64, Seq<u64>>) -> BookView {
    if side == Side::Bid {
        BookView { bids: levels, ..v }
    } else {
        BookView { asks: levels, ..v }
    }
}

/// Total remaining quantity of the orders queued in `ids`.
pub open spec fn level_volume(orders: Map<u64, OrderModel>, ids: Seq<u64>) -> nat
    decreases ids.len(),
{
    if ids.len() == 0 {
        0
    } else {
        orders[ids[0]].remaining_quantity as nat + level_volume(orders, ids.drop_first())
    }
}

/// Aggregated visible volume at a price on one side (zero where no order rests).
pub open spec fn volume_at(v: BookView, side: Side, price: u64) -> nat {
    if side == Side::Invalid {
        0
    } else if levels_of(v, side).contains_key(price) {
        level_volume(v.orders, levels_of(v, side)[price])
    } else {
        0
    }
}

pub open spec fn is_max_of(s: Set<u64>, k: u64) -> bool {
    s.contains(k) && forall|j: u64| #[trigger] s.contains(j) ==> j <= k
}

pub open spec fn is_min_of(s: Set<u64>, k: u64) -> bool {
    s.contains(k) && forall|j: u64| #[trigger] s.contains(j) ==> k <= j
}

/// Highest price at which a bid rests.
pub open spec fn best_bid_of(v: BookView) -> Option<u64> {
    if exists|k: u64| is_max_of(v.bids.dom(), k) {
        Some(choose|k: u64| is_max_of(v.bids.dom(), k))
    } else {
        None
    }
}

/// Lowest price at which an ask rests.
pub open spec fn best_ask_of(v: BookView) -> Option<u64> {
    if exists|k: u64| is_min_of(v.asks.dom(), k) {
        Some(choose|k: u64| is_min_of(v.asks.dom(), k))
    } else {
        None
    }
}

/// The best bid is at or above the best ask: those two levels can trade.
pub open spec fn crossed(v: BookView) -> bool {
    &&& best_bid_of(v) is Some
    &&& best_ask_of(v) is Some
    &&& best_bid_of(v)->0 >= best_ask_of(v)->0
}

/// Whether an order on `side` limited at `price` would trade at once.
pub open spec fn crosses(v: BookView, side: Side, price: u64) -> bool {
    match side {
        Side::Bid => best_ask_of(v) is Some && price >= best_ask_of(v)->0,
        Side::Ask => best_bid_of(v) is Some && price <= best_bid_of(v)->0,
        Side::Invalid => false,
    }
}

/// Orders of these types never rest: they trade at once as far as they can, and
/// whatever is left of them is dropped.
pub open spec fn takes_at_once(t: OrderType) -> bool {
    t == OrderType::Ioc || t == OrderType::Market
}

/// The price up to which an incoming order may trade: its own limit, or, for a
/// market order, any price the other side offers.
pub open spec fn limit_of(o: OrderModel) -> u64 {
    if o.order_type == OrderType::Market {
        if o.side == Side::Bid {
            u64::MAX
        } else {
            0
        }
    } else {
        o.price
    }
}

// ── Well-formedness ─────────────────────────────────────────────────────────

/// Id `id` is a resting order on `side` at `price`.
pub open spec fn member_ok(orders: Map<u64, OrderModel>, id: u64, side: Side, price: u64) -> bool {
    &&& orders.contains_key(id)
    &&& orders[id].side == side
    &&& orders[id].price == price
}

/// Every level of one side is a non-empty queue, in id order, of resting orders of
/// that side at that level's price.
pub open spec fn levels_wf(orders: Map<u64, OrderModel>, levels: Map<u64, Seq<u64>>, side: Side) -> bool {
    &&& forall|p: u64| #[trigger]
        levels.contains_key(p) ==> levels[p].len() > 0 && strictly_increasing(levels[p])
    &&& forall|p: u64, i: int|
        levels.contains_key(p) && 0 <= i < levels[p].len() ==> member_ok(
            orders,
            #[trigger] levels[p][i],
            side,
            p,
        )
}

/// A resting order carries its own id, has something left but never more than it
/// started with, and is queued at its price on its side.
pub open spec fn order_rests(v: BookView, id: u64) -> bool {
    let o = v.orders[id];
    &&& o.order_id == id
    &&& o.remaining_quantity > 0
    &&& o.remaining_quantity <= o.initial_quantity
    &&& o.side == Side::Bid || o.side == Side::Ask
    &&& levels_of(v, o.side).contains_key(o.price)
    &&& levels_of(v, o.side)[o.price].contains(id)
}

/// The book's consistency, whether or not it is crossed.
pub open spec fn book_consistent(v: BookView) -> bool {
    &&& v.orders.dom().finite()
    &&& v.bids.dom().finite()
    &&& v.asks.dom().finite()
    &&& levels_wf(v.orders, v.bids, Side::Bid)
    &&& levels_wf(v.orders, v.asks, Side::Ask)
    &&& forall|id: u64| #[trigger] v.orders.contains_key(id) ==> order_rests(v, id)
}

/// A book at rest: consistent and not crossed.
pub open spec fn book_wf(v: BookView) -> bool {
    book_consistent(v) && !crossed(v)
}

/// A stored volume map agrees with the queues it summarises.
pub open spec fn volumes_wf(
    orders: Map<u64, OrderModel>,
    levels: Map<u64, Seq<u64>>,
    vol: Map<u64, u64>,
) -> bool {
    &&& vol.dom() == levels.dom()
    &&& forall|p: u64| #[trigger]
        levels.contains_key(p) ==> vol[p] as nat == level_volume(orders, levels[p])
}

// ── Level volume lemmas ─────────────────────────────────────────────────────

/// The volume of a queue depends only on the remaining quantities of its own orders.
pub proof fn lemma_level_volume_frame(
    o1: Map<u64, OrderModel>,
    o2: Map<u64, OrderModel>,
    s: Seq<u64>,
)
    requires
        forall|i: int| 0 <= i < s.len() ==> o1[#[trigger] s[i]].remaining_quantity
            == o2[s[i]].remaining_quantity,
    ensures
        level_volume(o1, s) == level_volume(o2, s),
    decreases s.len(),
{
    if s.len() > 0 {
        let t = s.drop_first();
        assert forall|i: int| 0 <= i < t.len() implies o1[#[trigger] t[i]].remaining_quantity
            == o2[t[i]].remaining_quantity by {
            assert(t[i] == s[i + 1]);
        }
        lemma_level_volume_frame(o1, o2, t);
        assert(o1[s[0]].remaining_quantity == o2[s[0]].remaining_quantity);
    }
}

/// Taking the order at index `i` out of the queue and the map takes its remaining
/// quantity out of the volume.
pub proof fn lemma_level_volume_remove(orders: Map<u64, OrderModel>, s: Seq<u64>, i: int)
    requires
        strictly_increasing(s),
        0 <= i < s.len(),
    ensures
        level_volume(orders.remove(s[i]), s.remove(i)) + orders[s[i]].remaining_quantity
            == level_volume(orders, s),
    decreases s.len(),
{
    let x = s[i];
    let o2 = orders.remove(x);
    let t = s.drop_first();
    if i == 0 {
        assert(s.remove(0) =~= t);
        assert forall|j: int| 0 <= j < t.len() implies orders[#[trigger] t[j]].remaining_quantity
            == o2[t[j]].remaining_quantity by {
            assert(s[0] < s[j + 1]);
        }
        lemma_level_volume_frame(orders, o2, t);
    } else {
        assert(strictly_increasing(t)) by {
            assert forall|a: int, b: int| 0 <= a < b < t.len() implies t[a] < t[b] by {
                assert(s[a + 1] < s[b + 1]);
            }
        }
        lemma_level_volume_remove(orders, t, i - 1);
        assert(t[i - 1] == x);
        let r = s.remove(i);
        assert(r.drop_first() =~= t.remove(i - 1));
        assert(r[0] == s[0]);
        assert(s[0] < s[i]);
        assert(o2[s[0]] == orders[s[0]]);
    }
}

/// Adding a new order at index `i` of the queue and to the map adds its remaining
/// quantity to the volume.
pub proof fn lemma_level_volume_insert(
    orders: Map<u64, OrderModel>,
    s: Seq<u64>,
    i: int,
    x: u64,
    o: OrderModel,
)
    requires
        0 <= i <= s.len(),
        !s.contains(x),
    ensures
        level_volume(orders.insert(x, o), s.insert(i, x)) == level_volume(orders, s)
            + o.remaining_quantity,
    decreases s.len(),
{
    let o2 = orders.insert(x, o);
    let r = s.insert(i, x);
    if i == 0 {
        assert(r.drop_first() =~= s);
        assert forall|j: int| 0 <= j < s.len() implies orders[#[trigger] s[j]].remaining_quantity
            == o2[s[j]].remaining_quantity by {
            assert(s[j] != x);
        }
        lemma_level_volume_frame(orders, o2, s);
    } else {
        let t = s.drop_first();
        assert(!t.contains(x)) by {
            if t.contains(x) {
                let k = choose|k: int| 0 <= k < t.len() && t[k] == x;
                assert(s[k + 1] == x);
            }
        }
        lemma_level_volume_insert(orders, t, i - 1, x, o);
        assert(r.drop_first() =~= t.insert(i - 1, x));
        assert(r[0] == s[0]);
        assert(s[0] != x);
    }
}

/// A non-empty queue of orders that each have something left has positive volume.
pub proof fn lemma_level_volume_positive(orders: Map<u64, OrderModel>, s: Seq<u64>)
    requires
        s.len() > 0,
        orders[s[0]].remaining_quantity > 0,
    ensures
        level_volume(orders, s) > 0,
{
}

// ── Consuming the front order of a level ─────────────────────────────────────

/// The opposite side.
pub open spec fn other_side(side: Side) -> Side {
    if side == Side::Bid {
        Side::Ask
    } else {
        Side::Bid
    }
}

/// `q` more units of order `id` are filled; a fully filled order leaves the map.
pub open spec fn consume(orders: Map<u64, OrderModel>, id: u64, q: u64) -> Map<u64, OrderModel> {
    if orders[id].remaining_quantity == q {
        orders.remove(id)
    } else {
        orders.insert(id, fill_model(orders[id], q))
    }
}

/// The front id of the level at `p` leaves; an emptied level leaves the map.
pub open spec fn pop_level(levels: Map<u64, Seq<u64>>, p: u64) -> Map<u64, Seq<u64>> {
    if levels[p].len() <= 1 {
        levels.remove(p)
    } else {
        levels.insert(p, levels[p].drop_first())
    }
}

/// The front order of the level at `p` on `side` gets `q` more units filled.
pub open spec fn consume_front(v: BookView, side: Side, p: u64, q: u64) -> BookView {
    let levels = levels_of(v, side);
    let id = levels[p][0];
    let v1 = BookView { orders: consume(v.orders, id, q), ..v };
    if v.orders[id].remaining_quantity == q {
        with_levels(v1, side, pop_level(levels, p))
    } else {
        v1
    }
}

/// The stored volume of level `p` after `q` units trade there: the entry goes when
/// the filled order was the last one.
pub open spec fn consume_volume(vol: Map<u64, u64>, p: u64, q: u64, filled: bool) -> Map<u64, u64> {
    let nv = (vol[p] - q) as u64;
    if filled && nv == 0 {
        vol.remove(p)
    } else {
        vol.insert(p, nv)
    }
}

pub proof fn lemma_strictly_increasing_drop_first(s: Seq<u64>)
    requires
        strictly_increasing(s),
        s.len() > 0,
    ensures
        strictly_increasing(s.drop_first()),
        !s.drop_first().contains(s[0]),
{
    let t = s.drop_first();
    assert forall|a: int, b: int| 0 <= a < b < t.len() implies t[a] < t[b] by {
        assert(s[a + 1] < s[b + 1]);
    }
    if t.contains(s[0]) {
        let k = choose|k: int| 0 <= k < t.len() && t[k] == s[0];
        assert(s[0] < s[k + 1]);
    }
}

/// Consuming the front order of a level keeps the book consistent, keeps the other
/// side as it was, and keeps the stored volumes in step.
pub proof fn lemma_consume_front(
    v: BookView,
    side: Side,
    p: u64,
    q: u64,
    vol: Map<u64, u64>,
    vol_other: Map<u64, u64>,
)
    requires
        book_consistent(v),
        side == Side::Bid || side == Side::Ask,
        levels_of(v, side).contains_key(p),
        0 < q <= v.orders[levels_of(v, side)[p][0]].remaining_quantity,
    ensures
        ({
            let v2 = consume_front(v, side, p, q);
            let id = levels_of(v, side)[p][0];
            let filled = v.orders[id].remaining_quantity == q;
            &&& book_consistent(v2)
            &&& levels_of(v2, other_side(side)) == levels_of(v, other_side(side))
            &&& levels_of(v2, side).dom().subset_of(levels_of(v, side).dom())
            &&& v2.trades == v.trades
            &&& v2.symbol == v.symbol
            &&& volumes_wf(v.orders, levels_of(v, side), vol) ==> {
                &&& vol[p] >= q
                &&& volumes_wf(v2.orders, levels_of(v2, side), consume_volume(vol, p, q, filled))
                &&& (filled && vol[p] - q == 0) == (filled && levels_of(v, side)[p].len() <= 1)
            }
            &&& volumes_wf(v.orders, levels_of(v, other_side(side)), vol_other) ==> volumes_wf(
                v2.orders,
                levels_of(v2, other_side(side)),
                vol_other,
            )
        }),
{
    let levels = levels_of(v, side);
    let other = levels_of(v, other_side(side));
    let s = levels[p];
    let id = s[0];
    let o = v.orders[id];
    let filled = o.remaining_quantity == q;
    let v2 = consume_front(v, side, p, q);
    let orders2 = v2.orders;
    let levels2 = levels_of(v2, side);
    assert(member_ok(v.orders, s[0], side, p));
    // The volume of the consumed level.
    assert(level_volume(v.orders, s) == o.remaining_quantity as nat + level_volume(
        v.orders,
        s.drop_first(),
    ));
    lemma_strictly_increasing_drop_first(s);
    let t = s.drop_first();
    assert forall|j: int| 0 <= j < t.len() implies v.orders[#[trigger] t[j]].remaining_quantity
        == orders2[t[j]].remaining_quantity by {
        assert(t[j] != id);
        assert(member_ok(v.orders, s[j + 1], side, p));
    }
    lemma_level_volume_frame(v.orders, orders2, t);
    if t.len() > 0 {
        assert(member_ok(v.orders, s[1], side, p));
        assert(order_rests(v, t[0]));
        lemma_level_volume_positive(v.orders, t);
    }
    // Levels of this side other than `p`, and all levels of the other side, keep
    // their volume: the consumed order is in none of them.
    assert forall|p2: u64, i: int|
        levels.contains_key(p2) && p2 != p && 0 <= i < levels[p2].len() implies #[trigger] levels[p2][i]
        != id by {
        assert(member_ok(v.orders, levels[p2][i], side, p2));
    }
    assert forall|p2: u64, i: int|
        other.contains_key(p2) && 0 <= i < other[p2].len() implies #[trigger] other[p2][i] != id by {
        assert(member_ok(v.orders, other[p2][i], other_side(side), p2));
    }
    assert forall|p2: u64| #[trigger] levels.contains_key(p2) && p2 != p implies level_volume(
        orders2,
        levels[p2],
    ) == level_volume(v.orders, levels[p2]) by {
        assert forall|j: int| 0 <= j < levels[p2].len() implies v.orders[#[trigger] levels[p2][j]].remaining_quantity
            == orders2[levels[p2][j]].remaining_quantity by {
            assert(levels[p2][j] != id);
        }
        lemma_level_volume_frame(v.orders, orders2, levels[p2]);
    }
    assert forall|p2: u64| #[trigger] other.contains_key(p2) implies level_volume(
        orders2,
        other[p2],
    ) == level_volume(v.orders, other[p2]) by {
        assert forall|j: int| 0 <= j < other[p2].len() implies v.orders[#[trigger] other[p2][j]].remaining_quantity
            == orders2[other[p2][j]].remaining_quantity by {
            assert(other[p2][j] != id);
        }
        lemma_level_volume_frame(v.orders, orders2, other[p2]);
    }
    assert(levels_of(v2, other_side(side)) == other);
    // Membership in the levels.
    assert(levels_wf(orders2, levels2, side)) by {
        assert forall|p2: u64, i: int|
            levels2.contains_key(p2) && 0 <= i < levels2[p2].len() implies member_ok(
            orders2,
            #[trigger] levels2[p2][i],
            side,
            p2,
        ) by {
            if p2 == p && filled {
                assert(levels2[p2][i] == s[i + 1]);
                assert(member_ok(v.orders, s[i + 1], side, p));
            } else {
                assert(member_ok(v.orders, levels[p2][i], side, p2));
            }
        }
        assert forall|p2: u64| #[trigger] levels2.contains_key(p2) implies levels2[p2].len() > 0
            && strictly_increasing(levels2[p2]) by {
            assert(levels.contains_key(p2));
        }
    }
    assert(levels_wf(orders2, other, other_side(side))) by {
        assert forall|p2: u64, i: int|
            other.contains_key(p2) && 0 <= i < other[p2].len() implies member_ok(
            orders2,
            #[trigger] other[p2][i],
            other_side(side),
            p2,
        ) by {
            assert(member_ok(v.orders, other[p2][i], other_side(side), p2));
        }
    }
    assert forall|id2: u64| #[trigger] orders2.contains_key(id2) implies order_rests(v2, id2) by {
        assert(v.orders.contains_key(id2));
        assert(order_rests(v, id2));
        let o2 = v.orders[id2];
        if id2 != id && o2.side == side && o2.price == p && filled {
            let k = choose|k: int| 0 <= k < s.len() && s[k] == id2;
            assert(s[k] == id2);
            assert(k != 0);
            assert(t[k - 1] == id2);
            assert(levels2[p].contains(id2));
        }
    }
    if side == Side::Bid {
        assert(book_consistent(v2));
    } else {
        assert(book_consistent(v2));
    }
    let vol2 = consume_volume(vol, p, q, filled);
    if volumes_wf(v.orders, levels, vol) {
        assert(vol[p] as nat == level_volume(v.orders, s));
        assert(volumes_wf(orders2, levels2, vol2)) by {
            assert(vol2.dom() =~= levels2.dom());
        }
    }
    assert(levels2.dom().subset_of(levels.dom()));
}

// ── Matching ─────────────────────────────────────────────────────────────────

/// The smaller of two quantities.
pub open spec fn min_qty(a: u64, b: u64) -> u64 {
    if a <= b {
        a
    } else {
        b
    }
}

/// `consume` removes the order exactly when all of it is filled, and touches no other order.
pub proof fn lemma_consume_orders(orders: Map<u64, OrderModel>, id: u64, q: u64)
    requires
        orders.dom().finite(),
        orders.contains_key(id),
    ensures
        consume(orders, id, q).dom().finite(),
        orders[id].remaining_quantity == q ==> consume(orders, id, q).dom().len()
            == orders.dom().len() - 1,
        orders[id].remaining_quantity != q ==> consume(orders, id, q).dom().len()
            == orders.dom().len(),
        forall|k: u64|
            k != id ==> (#[trigger] consume(orders, id, q).contains_key(k) == orders.contains_key(k)),
        forall|k: u64| k != id && orders.contains_key(k) ==> #[trigger] consume(orders, id, q)[k] == orders[k],
{
    if orders[id].remaining_quantity != q {
        assert(orders.dom().insert(id) =~= orders.dom());
    }
}

/// The trade made when the best bid meets the best ask, both at their fronts.
pub open spec fn sweep_trade(v: BookView) -> Trade<u64> {
    let bp = best_bid_of(v)->0;
    let ap = best_ask_of(v)->0;
    let bo = v.orders[v.bids[bp][0]];
    let ao = v.orders[v.asks[ap][0]];
    let q = min_qty(bo.remaining_quantity, ao.remaining_quantity);
    Trade {
        bid_side: TradeSide { order_id: v.bids[bp][0], price: bo.price, quantity: q },
        ask_side: TradeSide { order_id: v.asks[ap][0], price: ao.price, quantity: q },
    }
}

/// One match of a crossed book: the front bid of the best bid level trades with the
/// front ask of the best ask level, for as much as the smaller of them has left.
pub open spec fn sweep_step(v: BookView) -> BookView {
    let bp = best_bid_of(v)->0;
    let ap = best_ask_of(v)->0;
    let t = sweep_trade(v);
    let q = t.bid_side.quantity;
    consume_front(
        consume_front(BookView { trades: v.trades.push(t), ..v }, Side::Ask, ap, q),
        Side::Bid,
        bp,
        q,
    )
}

/// The fronts of the two best levels are distinct resting orders of a finite book.
pub open spec fn sweep_ready(v: BookView) -> bool {
    let bp = best_bid_of(v)->0;
    let ap = best_ask_of(v)->0;
    &&& v.orders.dom().finite()
    &&& v.bids[bp].len() > 0
    &&& v.asks[ap].len() > 0
    &&& v.orders.contains_key(v.bids[bp][0])
    &&& v.orders.contains_key(v.asks[ap][0])
    &&& v.bids[bp][0] != v.asks[ap][0]
}

pub proof fn lemma_sweep_step_shrinks(v: BookView)
    requires
        crossed(v),
        sweep_ready(v),
    ensures
        sweep_step(v).orders.dom().finite(),
        sweep_step(v).orders.dom().len() < v.orders.dom().len(),
{
    let bp = best_bid_of(v)->0;
    let ap = best_ask_of(v)->0;
    let bid_id = v.bids[bp][0];
    let ask_id = v.asks[ap][0];
    let q = sweep_trade(v).bid_side.quantity;
    lemma_consume_orders(v.orders, ask_id, q);
    let o1 = consume(v.orders, ask_id, q);
    lemma_consume_orders(o1, bid_id, q);
}

/// Match a book until it is no longer crossed.
pub open spec fn sweep(v: BookView) -> BookView
    decreases v.orders.dom().len(),
{
    if crossed(v) && sweep_ready(v) {
        proof {
            lemma_sweep_step_shrinks(v);
        }
        sweep(sweep_step(v))
    } else {
        v
    }
}

/// The best level of the side that an incoming order on `side` trades against.
pub open spec fn opposite_best(v: BookView, side: Side) -> u64 {
    if side == Side::Bid {
        best_ask_of(v)->0
    } else {
        best_bid_of(v)->0
    }
}

/// The trade of an incoming order `o` that trades at once (immediate-or-cancel
/// or market) against the front order of the best opposite level. The incoming
/// order's side of it carries its own limit price; a market order's carries the
/// price of the order it meets, the top of the book.
pub open spec fn ioc_trade(v: BookView, o: OrderModel) -> Trade<u64> {
    let p = opposite_best(v, o.side);
    let id = levels_of(v, other_side(o.side))[p][0];
    let r = v.orders[id];
    let q = min_qty(r.remaining_quantity, o.remaining_quantity);
    let own = if o.order_type == OrderType::Market {
        r.price
    } else {
        o.price
    };
    if o.side == Side::Bid {
        Trade {
            bid_side: TradeSide { order_id: o.order_id, price: own, quantity: q },
            ask_side: TradeSide { order_id: id, price: r.price, quantity: q },
        }
    } else {
        Trade {
            bid_side: TradeSide { order_id: id, price: r.price, quantity: q },
            ask_side: TradeSide { order_id: o.order_id, price: own, quantity: q },
        }
    }
}

/// One match of an incoming order that trades at once.
pub open spec fn ioc_step(v: BookView, o: OrderModel) -> (BookView, OrderModel) {
    let t = ioc_trade(v, o);
    let q = t.bid_side.quantity;
    (
        consume_front(
            BookView { trades: v.trades.push(t), ..v },
            other_side(o.side),
            opposite_best(v, o.side),
            q,
        ),
        fill_model(o, q),
    )
}

/// The incoming order has something left and its limit (any price, for a market
/// order) reaches the opposite best.
pub open spec fn ioc_can_trade(v: BookView, o: OrderModel) -> bool {
    o.remaining_quantity > 0 && crosses(v, o.side, limit_of(o))
}

pub open spec fn ioc_ready(v: BookView, o: OrderModel) -> bool {
    let levels = levels_of(v, other_side(o.side));
    let p = opposite_best(v, o.side);
    &&& v.orders.dom().finite()
    &&& levels[p].len() > 0
    &&& v.orders.contains_key(levels[p][0])
}

/// Match an order that trades at once for as long as it has something left and
/// its limit reaches the opposite best; whatever is left of it is dropped.
pub open spec fn ioc_match(v: BookView, o: OrderModel) -> BookView
    decreases v.orders.dom().len(), o.remaining_quantity,
{
    if ioc_can_trade(v, o) && ioc_ready(v, o) {
        proof {
            let p = opposite_best(v, o.side);
            let id = levels_of(v, other_side(o.side))[p][0];
            let q = ioc_trade(v, o).bid_side.quantity;
            lemma_consume_orders(v.orders, id, q);
        }
        ioc_match(ioc_step(v, o).0, ioc_step(v, o).1)
    } else {
        v
    }
}

/// The incoming order once `ioc_match` is done with it: filled
/// by every trade it made.
pub open spec fn ioc_order_after(v: BookView, o: OrderModel) -> OrderModel
    decreases v.orders.dom().len(), o.remaining_quantity,
{
    if ioc_can_trade(v, o) && ioc_ready(v, o) {
        proof {
            let p = opposite_best(v, o.side);
            let id = levels_of(v, other_side(o.side))[p][0];
            let q = ioc_trade(v, o).bid_side.quantity;
            lemma_consume_orders(v.orders, id, q);
        }
        ioc_order_after(ioc_step(v, o).0, ioc_step(v, o).1)
    } else {
        o
    }
}

// ── Adding, cancelling, modifying ────────────────────────────────────────────

/// A new order joins the queue at its price on its side.
pub open spec fn rest_order(v: BookView, o: OrderModel) -> BookView {
    let levels = levels_of(v, o.side);
    let queue = if levels.contains_key(o.price) {
        levels[o.price]
    } else {
        Seq::<u64>::empty()
    };
    with_levels(
        BookView { orders: v.orders.insert(o.order_id, o), ..v },
        o.side,
        levels.insert(o.price, sorted_insert(queue, o.order_id)),
    )
}

/// What adding order `o` does to a book, and whether the book accepts it.
pub open spec fn add_order_result(v: BookView, o: OrderModel) -> (BookView, bool) {
    if v.orders.contains_key(o.order_id) {
        (v, false)
    } else if takes_at_once(o.order_type) {
        if crosses(v, o.side, limit_of(o)) {
            (ioc_match(v, o), true)
        } else {
            (v, false)
        }
    } else if o.side == Side::Invalid {
        (v, false)
    } else {
        (sweep(rest_order(v, o)), true)
    }
}

/// The order that was handed to `add_order(v, o)`, as it stands when the call
/// returns: unchanged when refused; filled by its trades when it is an
/// immediate-or-cancel or market order; otherwise as it rests in the book after matching,
/// or with nothing left when matching filled it completely.
pub open spec fn added_order_after(v: BookView, o: OrderModel) -> OrderModel {
    if v.orders.contains_key(o.order_id) {
        o
    } else if takes_at_once(o.order_type) {
        if crosses(v, o.side, limit_of(o)) {
            ioc_order_after(v, o)
        } else {
            o
        }
    } else if o.side == Side::Invalid {
        o
    } else {
        let w = sweep(rest_order(v, o));
        if w.orders.contains_key(o.order_id) {
            w.orders[o.order_id]
        } else {
            fill_model(o, o.remaining_quantity)
        }
    }
}

/// What cancelling order `id` does to a book, and whether it was resting.
pub open spec fn cancel_result(v: BookView, id: u64) -> (BookView, bool) {
    if !v.orders.contains_key(id) {
        (v, false)
    } else {
        let o = v.orders[id];
        let levels = levels_of(v, o.side);
        let rest = remove_value(levels[o.price], id);
        let levels2 = if rest.len() == 0 {
            levels.remove(o.price)
        } else {
            levels.insert(o.price, rest)
        };
        (with_levels(BookView { orders: v.orders.remove(id), ..v }, o.side, levels2), true)
    }
}

/// What modifying resting order `id` does: it is cancelled and a fresh order with the
/// new side, price and quantity and the old order type is added in its place.
pub open spec fn update_result(
    v: BookView,
    id: u64,
    side: Side,
    price: u64,
    quantity: u64,
    time: u64,
) -> (BookView, bool) {
    if !v.orders.contains_key(id) {
        (v, false)
    } else {
        let t = v.orders[id].order_type;
        add_order_result(
            cancel_result(v, id).0,
            crate::order::new_order_model(t, side, id, price, quantity, time),
        )
    }
}

/// Whether `add_order` can take `o` without a volume overflowing and without a
/// resting order that has nothing to trade: a fresh order that would rest
/// has a positive quantity and fits in its level's volume.
pub open spec fn add_order_ok(v: BookView, o: OrderModel) -> bool {
    (!takes_at_once(o.order_type) && o.side != Side::Invalid && !v.orders.contains_key(o.order_id))
        ==> {
        &&& o.remaining_quantity == o.initial_quantity
        &&& o.initial_quantity > 0
        &&& volume_at(v, o.side, o.price) + o.initial_quantity <= u64::MAX
    }
}

/// Whether `update_order` can replace order `id` as asked (see `add_order_ok`).
pub open spec fn update_order_ok(
    v: BookView,
    id: u64,
    side: Side,
    price: u64,
    quantity: u64,
    time: u64,
) -> bool {
    v.orders.contains_key(id) ==> add_order_ok(
        cancel_result(v, id).0,
        crate::order::new_order_model(v.orders[id].order_type, side, id, price, quantity, time),
    )
}

// ── Preservation lemmas ───────────────────────────────────────────────────────

/// Every resting bid is below every resting ask.
pub open spec fn uncrossed(v: BookView) -> bool {
    forall|b: u64, a: u64|
        #[trigger] v.bids.contains_key(b) && #[trigger] v.asks.contains_key(a) ==> b < a
}

/// An uncrossed book is not crossed at its best prices.
pub proof fn lemma_uncrossed_not_crossed(v: BookView)
    requires
        uncrossed(v),
    ensures
        !crossed(v),
{
    if crossed(v) {
        let b = best_bid_of(v)->0;
        let a = best_ask_of(v)->0;
        assert(is_max_of(v.bids.dom(), b));
        assert(is_min_of(v.asks.dom(), a));
        assert(v.bids.contains_key(b) && v.asks.contains_key(a));
    }
}

/// Taking levels away never crosses a book.
pub proof fn lemma_uncrossed_subset(v: BookView, v2: BookView)
    requires
        uncrossed(v),
        v2.bids.dom().subset_of(v.bids.dom()),
        v2.asks.dom().subset_of(v.asks.dom()),
    ensures
        uncrossed(v2),
{
    assert forall|b: u64, a: u64|
        #[trigger] v2.bids.contains_key(b) && #[trigger] v2.asks.contains_key(a) implies b < a by {
        assert(v.bids.contains_key(b) && v.asks.contains_key(a));
    }
}

/// The volume stored for level `p` after an order with `q` left is cancelled there.
pub open spec fn cancel_volume(vol: Map<u64, u64>, p: u64, q: u64) -> Map<u64, u64> {
    let nv = (vol[p] - q) as u64;
    if nv == 0 {
        vol.remove(p)
    } else {
        vol.insert(p, nv)
    }
}

/// Resting a new order keeps the book consistent and adds its quantity to the
/// volume of its level.
pub proof fn lemma_rest_order(v: BookView, o: OrderModel, vol: Map<u64, u64>, vol_other: Map<u64, u64>)
    requires
        book_consistent(v),
        !v.orders.contains_key(o.order_id),
        o.side == Side::Bid || o.side == Side::Ask,
        0 < o.remaining_quantity <= o.initial_quantity,
    ensures
        ({
            let v2 = rest_order(v, o);
            let old_vol: nat = if vol.contains_key(o.price) {
                vol[o.price] as nat
            } else {
                0
            };
            &&& book_consistent(v2)
            &&& levels_of(v2, other_side(o.side)) == levels_of(v, other_side(o.side))
            &&& v2.trades == v.trades
            &&& v2.symbol == v.symbol
            &&& volumes_wf(v.orders, levels_of(v, o.side), vol) ==> {
                &&& old_vol == volume_at(v, o.side, o.price)
                &&& (old_vol + o.remaining_quantity <= u64::MAX ==> volumes_wf(
                    v2.orders,
                    levels_of(v2, o.side),
                    vol.insert(o.price, (old_vol + o.remaining_quantity) as u64),
                ))
            }
            &&& volumes_wf(v.orders, levels_of(v, other_side(o.side)), vol_other) ==> volumes_wf(
                v2.orders,
                levels_of(v2, other_side(o.side)),
                vol_other,
            )
        }),
{
    let side = o.side;
    let id = o.order_id;
    let p = o.price;
    let levels = levels_of(v, side);
    let other = levels_of(v, other_side(side));
    let queue = if levels.contains_key(p) {
        levels[p]
    } else {
        Seq::<u64>::empty()
    };
    let v2 = rest_order(v, o);
    let orders2 = v2.orders;
    let levels2 = levels_of(v2, side);
    assert(!queue.contains(id)) by {
        if queue.contains(id) {
            let k = choose|k: int| 0 <= k < queue.len() && queue[k] == id;
            assert(member_ok(v.orders, queue[k], side, p));
        }
    }
    lemma_sorted_insert(queue, id);
    let i = choose|i: int| is_insert_pos(queue, id, i) && sorted_insert(queue, id) == queue.insert(i, id);
    let nq = sorted_insert(queue, id);
    lemma_level_volume_insert(v.orders, queue, i, id, o);
    // Every level already in the book holds only ids other than the new one.
    assert forall|p2: u64, j: int|
        levels.contains_key(p2) && 0 <= j < levels[p2].len() implies #[trigger] levels[p2][j] != id by {
        assert(member_ok(v.orders, levels[p2][j], side, p2));
    }
    assert forall|p2: u64, j: int|
        other.contains_key(p2) && 0 <= j < other[p2].len() implies #[trigger] other[p2][j] != id by {
        assert(member_ok(v.orders, other[p2][j], other_side(side), p2));
    }
    assert forall|p2: u64| #[trigger] levels.contains_key(p2) implies level_volume(
        orders2,
        levels[p2],
    ) == level_volume(v.orders, levels[p2]) by {
        assert forall|j: int| 0 <= j < levels[p2].len() implies v.orders[#[trigger] levels[p2][j]].remaining_quantity
            == orders2[levels[p2][j]].remaining_quantity by {
            assert(levels[p2][j] != id);
        }
        lemma_level_volume_frame(v.orders, orders2, levels[p2]);
    }
    assert forall|p2: u64| #[trigger] other.contains_key(p2) implies level_volume(
        orders2,
        other[p2],
    ) == level_volume(v.orders, other[p2]) by {
        assert forall|j: int| 0 <= j < other[p2].len() implies v.orders[#[trigger] other[p2][j]].remaining_quantity
            == orders2[other[p2][j]].remaining_quantity by {
            assert(other[p2][j] != id);
        }
        lemma_level_volume_frame(v.orders, orders2, other[p2]);
    }
    assert(levels_of(v2, other_side(side)) == other);
    assert(levels_wf(orders2, levels2, side)) by {
        assert forall|p2: u64, j: int|
            levels2.contains_key(p2) && 0 <= j < levels2[p2].len() implies member_ok(
            orders2,
            #[trigger] levels2[p2][j],
            side,
            p2,
        ) by {
            if p2 == p {
                if nq[j] != id {
                    let k = choose|k: int| 0 <= k < queue.len() && queue[k] == nq[j];
                    assert(member_ok(v.orders, queue[k], side, p));
                }
            } else {
                assert(member_ok(v.orders, levels[p2][j], side, p2));
            }
        }
    }
    assert(levels_wf(orders2, other, other_side(side))) by {
        assert forall|p2: u64, j: int|
            other.contains_key(p2) && 0 <= j < other[p2].len() implies member_ok(
            orders2,
            #[trigger] other[p2][j],
            other_side(side),
            p2,
        ) by {
            assert(member_ok(v.orders, other[p2][j], other_side(side), p2));
        }
    }
    assert forall|id2: u64| #[trigger] orders2.contains_key(id2) implies order_rests(v2, id2) by {
        if id2 != id {
            assert(order_rests(v, id2));
            let o2 = v.orders[id2];
            if o2.side == side && o2.price == p {
                let k = choose|k: int| 0 <= k < queue.len() && queue[k] == id2;
                assert(nq.contains(queue[k]));
            }
        }
    }
    if side == Side::Bid {
        assert(book_consistent(v2));
    } else {
        assert(book_consistent(v2));
    }
    let old_vol: nat = if vol.contains_key(p) {
        vol[p] as nat
    } else {
        0
    };
    if volumes_wf(v.orders, levels, vol) && old_vol + o.remaining_quantity <= u64::MAX {
        let vol2 = vol.insert(p, (old_vol + o.remaining_quantity) as u64);
        assert(volumes_wf(orders2, levels2, vol2)) by {
            assert(vol2.dom() =~= levels2.dom());
        }
    }
}

/// Cancelling a resting order keeps the book consistent and takes what was left of
/// it out of the volume of its level.
pub proof fn lemma_cancel(v: BookView, id: u64, vol: Map<u64, u64>, vol_other: Map<u64, u64>)
    requires
        book_consistent(v),
        v.orders.contains_key(id),
    ensures
        ({
            let o = v.orders[id];
            let v2 = cancel_result(v, id).0;
            let rest = remove_value(levels_of(v, o.side)[o.price], id);
            &&& book_consistent(v2)
            &&& o.side == Side::Bid || o.side == Side::Ask
            &&& levels_of(v, o.side).contains_key(o.price)
            &&& levels_of(v2, other_side(o.side)) == levels_of(v, other_side(o.side))
            &&& levels_of(v2, o.side).dom().subset_of(levels_of(v, o.side).dom())
            &&& v2.trades == v.trades
            &&& v2.symbol == v.symbol
            &&& volumes_wf(v.orders, levels_of(v, o.side), vol) ==> {
                &&& vol.contains_key(o.price)
                &&& vol[o.price] >= o.remaining_quantity
                &&& (vol[o.price] - o.remaining_quantity == 0) == (rest.len() == 0)
                &&& volumes_wf(
                    v2.orders,
                    levels_of(v2, o.side),
                    cancel_volume(vol, o.price, o.remaining_quantity),
                )
            }
            &&& volumes_wf(v.orders, levels_of(v, other_side(o.side)), vol_other) ==> volumes_wf(
                v2.orders,
                levels_of(v2, other_side(o.side)),
                vol_other,
            )
        }),
{
    assert(order_rests(v, id));
    let o = v.orders[id];
    let side = o.side;
    let p = o.price;
    let levels = levels_of(v, side);
    let other = levels_of(v, other_side(side));
    let s = levels[p];
    let k = choose|k: int| 0 <= k < s.len() && s[k] == id;
    assert(s[k] == id);
    lemma_index_unique(s, id, k);
    let rest = s.remove(k);
    let v2 = cancel_result(v, id).0;
    let orders2 = v2.orders;
    let levels2 = levels_of(v2, side);
    lemma_level_volume_remove(v.orders, s, k);
    assert(orders2 == v.orders.remove(id));
    if rest.len() > 0 {
        if k == 0 {
            assert(rest[0] == s[1]);
            assert(member_ok(v.orders, s[1], side, p));
            assert(order_rests(v, s[1]));
        } else {
            assert(rest[0] == s[0]);
            assert(member_ok(v.orders, s[0], side, p));
            assert(order_rests(v, s[0]));
        }
        assert(rest[0] != id) by {
            if k == 0 {
                assert(s[0] < s[1]);
            } else {
                assert(s[0] < s[k]);
            }
        }
        lemma_level_volume_positive(orders2, rest);
    }
    assert forall|p2: u64, j: int|
        levels.contains_key(p2) && p2 != p && 0 <= j < levels[p2].len() implies #[trigger] levels[p2][j]
        != id by {
        assert(member_ok(v.orders, levels[p2][j], side, p2));
    }
    assert forall|p2: u64, j: int|
        other.contains_key(p2) && 0 <= j < other[p2].len() implies #[trigger] other[p2][j] != id by {
        assert(member_ok(v.orders, other[p2][j], other_side(side), p2));
    }
    assert forall|p2: u64| #[trigger] levels.contains_key(p2) && p2 != p implies level_volume(
        orders2,
        levels[p2],
    ) == level_volume(v.orders, levels[p2]) by {
        assert forall|j: int| 0 <= j < levels[p2].len() implies v.orders[#[trigger] levels[p2][j]].remaining_quantity
            == orders2[levels[p2][j]].remaining_quantity by {
            assert(levels[p2][j] != id);
        }
        lemma_level_volume_frame(v.orders, orders2, levels[p2]);
    }
    assert forall|p2: u64| #[trigger] other.contains_key(p2) implies level_volume(
        orders2,
        other[p2],
    ) == level_volume(v.orders, other[p2]) by {
        assert forall|j: int| 0 <= j < other[p2].len() implies v.orders[#[trigger] other[p2][j]].remaining_quantity
            == orders2[other[p2][j]].remaining_quantity by {
            assert(other[p2][j] != id);
        }
        lemma_level_volume_frame(v.orders, orders2, other[p2]);
    }
    assert(levels_of(v2, other_side(side)) == other);
    assert(strictly_increasing(rest)) by {
        assert forall|a: int, b: int| 0 <= a < b < rest.len() implies rest[a] < rest[b] by {
            if b < k {
            } else if a < k {
                assert(s[a] < s[b + 1]);
            } else {
                assert(s[a + 1] < s[b + 1]);
            }
        }
    }
    assert(levels_wf(orders2, levels2, side)) by {
        assert forall|p2: u64, j: int|
            levels2.contains_key(p2) && 0 <= j < levels2[p2].len() implies member_ok(
            orders2,
            #[trigger] levels2[p2][j],
            side,
            p2,
        ) by {
            if p2 == p {
                if j < k {
                    assert(rest[j] == s[j]);
                    assert(member_ok(v.orders, s[j], side, p));
                    assert(s[j] < s[k]);
                } else {
                    assert(rest[j] == s[j + 1]);
                    assert(member_ok(v.orders, s[j + 1], side, p));
                    assert(s[k] < s[j + 1]);
                }
            } else {
                assert(member_ok(v.orders, levels[p2][j], side, p2));
            }
        }
    }
    assert(levels_wf(orders2, other, other_side(side))) by {
        assert forall|p2: u64, j: int|
            other.contains_key(p2) && 0 <= j < other[p2].len() implies member_ok(
            orders2,
            #[trigger] other[p2][j],
            other_side(side),
            p2,
        ) by {
            assert(member_ok(v.orders, other[p2][j], other_side(side), p2));
        }
    }
    assert forall|id2: u64| #[trigger] orders2.contains_key(id2) implies order_rests(v2, id2) by {
        assert(order_rests(v, id2));
        let o2 = v.orders[id2];
        if o2.side == side && o2.price == p {
            let k2 = choose|k2: int| 0 <= k2 < s.len() && s[k2] == id2;
            assert(s[k2] == id2);
            assert(k2 != k);
            if k2 < k {
                assert(rest[k2] == id2);
            } else {
                assert(rest[k2 - 1] == id2);
            }
            assert(rest.contains(id2));
        }
    }
    if side == Side::Bid {
        assert(book_consistent(v2));
    } else {
        assert(book_consistent(v2));
    }
    let vol2 = cancel_volume(vol, p, o.remaining_quantity);
    if volumes_wf(v.orders, levels, vol) {
        assert(vol2.dom() =~= levels2.dom());
        assert(volumes_wf(orders2, levels2, vol2));
    }
    assert(levels2.dom().subset_of(levels.dom()));
}

} // verus!
