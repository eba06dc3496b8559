//! Single-symbol limit order book with price-time-priority matching.
//!
//! Bid and ask levels are ordered maps from price to a queue of order ids; the
//! resting orders themselves live in a map by id, and the visible volume of each
//! level is kept in a map by price.
use std::collections::{BTreeMap, HashMap};
use vstd::prelude::*;
use vstd::std_specs::cmp::OrdSpec;
use vstd::std_specs::iter::IteratorSpec;

use crate::book_model::{
    add_order_ok, add_order_result, added_order_after, best_ask_of, best_bid_of, book_consistent, cancel_result, cancel_volume,
    consume, consume_front, consume_volume, crosses, crossed, limit_of, takes_at_once, ioc_can_trade, ioc_match, ioc_order_after,
    ioc_ready, ioc_step, ioc_trade, is_max_of, is_min_of, lemma_cancel, lemma_consume_front,
    lemma_consume_orders, lemma_rest_order, lemma_sweep_step_shrinks, lemma_uncrossed_not_crossed,
    lemma_uncrossed_subset, level_volume, levels_of, member_ok, min_qty, opposite_best, order_rests,
    other_side, pop_level, rest_order, sweep, sweep_ready, sweep_step, sweep_trade, uncrossed,
    update_order_ok, update_result, volume_at, volumes_wf, BookView,
};
use crate::messages::{ModifyOrderMsg, Price};
use crate::order::{fill_model, new_order_model, new_order_ptr, Order, OrderModel, OrderPtr};
use crate::order_queue::{remove_value, sorted_insert, strictly_increasing, OrderQueue};
use crate::trade::{Trade, TradeSide};
use crate::types::{OrderId, OrderType, Side, Volume};

verus! {

broadcast use vstd::std_specs::hash::group_hash_axioms, vstd::std_specs::btree::group_btree_axioms, vstd::laws_cmp::group_laws_cmp;

/// `BTreeMap::first_key_value`: the smallest key of the map, `None` when it is empty.
#[verifier::external_body]
fn first_key<V>(m: &BTreeMap<u64, V>) -> (r: Option<u64>)
    ensures
        r matches Some(k) ==> is_min_of(m@.dom(), k),
        r is None ==> m@.dom() == Set::<u64>::empty(),
{
    match m.first_key_value() {
        Some((k, _)) => Some(*k),
        None => None,
    }
}

/// `BTreeMap::last_key_value`: the largest key of the map, `None` when it is empty.
#[verifier::external_body]
fn last_key<V>(m: &BTreeMap<u64, V>) -> (r: Option<u64>)
    ensures
        r matches Some(k) ==> is_max_of(m@.dom(), k),
        r is None ==> m@.dom() == Set::<u64>::empty(),
{
    match m.last_key_value() {
        Some((k, _)) => Some(*k),
        None => None,
    }
}

pub open spec fn queue_views(m: Map<u64, OrderQueue>) -> Map<u64, Seq<u64>> {
    m.map_values(|q: OrderQueue| q@)
}

pub open spec fn order_views(m: Map<u64, Order>) -> Map<u64, OrderModel> {
    m.map_values(|o: Order| o@)
}

/// `best` is the highest bid price of `v`.
proof fn lemma_best_bid_is(v: BookView, best: u64)
    requires
        is_max_of(v.bids.dom(), best),
    ensures
        best_bid_of(v) == Some(best),
{
    let k = choose|k: u64| is_max_of(v.bids.dom(), k);
    assert(is_max_of(v.bids.dom(), k));
    assert(v.bids.dom().contains(best) && v.bids.dom().contains(k));
}

/// `best` is the lowest ask price of `v`.
proof fn lemma_best_ask_is(v: BookView, best: u64)
    requires
        is_min_of(v.asks.dom(), best),
    ensures
        best_ask_of(v) == Some(best),
{
    let k = choose|k: u64| is_min_of(v.asks.dom(), k);
    assert(is_min_of(v.asks.dom(), k));
    assert(v.asks.dom().contains(best) && v.asks.dom().contains(k));
}

/// The front id of the queue at price `p`.
fn level_front(queues: &BTreeMap<u64, OrderQueue>, p: u64) -> (id: OrderId)
    requires
        queue_views(queues@).contains_key(p),
        queue_views(queues@)[p].len() > 0,
    ensures
        id == queue_views(queues@)[p][0],
{
    let queue = queues.get(&p).unwrap();
    queue.front().unwrap()
}

/// The front order of level `p` has `q` more units filled: the level's volume drops
/// by `q`; when the order is done it leaves the queue, and an emptied level leaves
/// both maps.
fn level_consume_front(
    queues: &mut BTreeMap<u64, OrderQueue>,
    volumes: &mut HashMap<u64, Volume>,
    p: u64,
    q: u64,
    filled: bool,
)
    requires
        queue_views(old(queues)@).contains_key(p),
        queue_views(old(queues)@)[p].len() > 0,
        old(volumes)@.contains_key(p),
        old(volumes)@[p] >= q,
        filled && old(volumes)@[p] - q == 0 ==> queue_views(old(queues)@)[p].len() <= 1,
        filled && queue_views(old(queues)@)[p].len() <= 1 ==> old(volumes)@[p] - q == 0,
    ensures
        final(volumes)@ == consume_volume(old(volumes)@, p, q, filled),
        queue_views(final(queues)@) == if filled {
            pop_level(queue_views(old(queues)@), p)
        } else {
            queue_views(old(queues)@)
        },
{
    let vol = *volumes.get(&p).unwrap();
    let nv = vol.saturating_sub(q);
    volumes.insert(p, nv);
    if filled {
        let mut queue = queues.remove(&p).unwrap();
        queue.pop_front();
        if !queue.is_empty() {
            queues.insert(p, queue);
        }
        if nv == 0 {
            volumes.remove(&p);
        }
        assert(queue_views(queues@) =~= pop_level(queue_views(old(queues)@), p));
    }
    assert(volumes@ =~= consume_volume(old(volumes)@, p, q, filled));
}

/// Order `id`, with `qty` left, leaves the queue at `p`; the level's volume drops by
/// `qty`, and a drained level leaves both maps.
fn level_cancel(
    queues: &mut BTreeMap<u64, OrderQueue>,
    volumes: &mut HashMap<u64, Volume>,
    p: u64,
    id: OrderId,
    qty: u64,
)
    requires
        queue_views(old(queues)@).contains_key(p),
        old(volumes)@.contains_key(p),
        old(volumes)@[p] >= qty,
        (old(volumes)@[p] - qty == 0) == (remove_value(queue_views(old(queues)@)[p], id).len()
            == 0),
    ensures
        final(volumes)@ == cancel_volume(old(volumes)@, p, qty),
        queue_views(final(queues)@) == ({
            let rest = remove_value(queue_views(old(queues)@)[p], id);
            if rest.len() == 0 {
                queue_views(old(queues)@).remove(p)
            } else {
                queue_views(old(queues)@).insert(p, rest)
            }
        }),
{
    let vol = *volumes.get(&p).unwrap();
    let nv = vol.saturating_sub(qty);
    if nv == 0 {
        volumes.remove(&p);
    } else {
        volumes.insert(p, nv);
    }
    let mut queue = queues.remove(&p).unwrap();
    queue.erase(id);
    if !queue.is_empty() {
        queues.insert(p, queue);
    }
    assert(volumes@ =~= cancel_volume(old(volumes)@, p, qty));
    let ghost rest = remove_value(queue_views(old(queues)@)[p], id);
    proof {
        if rest.len() == 0 {
            assert(queue_views(queues@) =~= queue_views(old(queues)@).remove(p));
        } else {
            assert(queue_views(queues@) =~= queue_views(old(queues)@).insert(p, rest));
        }
    }
}

/// A new order joins the queue at `p` (created if missing), and `qty` is added to
/// the level's volume.
fn level_rest(
    queues: &mut BTreeMap<u64, OrderQueue>,
    volumes: &mut HashMap<u64, Volume>,
    p: u64,
    order: OrderPtr,
    qty: u64,
)
    requires
        (if old(volumes)@.contains_key(p) {
            old(volumes)@[p] as nat
        } else {
            0
        }) + qty <= u64::MAX,
        queue_views(old(queues)@).contains_key(p) ==> strictly_increasing(
            queue_views(old(queues)@)[p],
        ),
    ensures
        queue_views(final(queues)@) == queue_views(old(queues)@).insert(
            p,
            sorted_insert(
                if queue_views(old(queues)@).contains_key(p) {
                    queue_views(old(queues)@)[p]
                } else {
                    Seq::<u64>::empty()
                },
                order@.order_id,
            ),
        ),
        final(volumes)@ == old(volumes)@.insert(
            p,
            ((if old(volumes)@.contains_key(p) {
                old(volumes)@[p] as nat
            } else {
                0
            }) + qty) as u64,
        ),
{
    let mut queue = match queues.remove(&p) {
        Some(q) => q,
        None => OrderQueue::new(),
    };
    queue.push_back(order);
    queues.insert(p, queue);
    let vol = match volumes.get(&p) {
        Some(v) => *v,
        None => 0,
    };
    volumes.insert(p, vol + qty);
    assert(queue_views(queues@) =~= queue_views(old(queues)@).insert(
        p,
        sorted_insert(
            if queue_views(old(queues)@).contains_key(p) {
                queue_views(old(queues)@)[p]
            } else {
                Seq::<u64>::empty()
            },
            order@.order_id,
        ),
    ));
}

/// `s` lists every level of one side once, with its volume, in strictly
/// decreasing (`descending`) or strictly increasing price order.
pub open spec fn is_level_list(v: BookView, side: Side, s: Seq<(u64, u64)>, descending: bool) -> bool {
    &&& forall|i: int, j: int|
        0 <= i < j < s.len() ==> if descending {
            s[i].0 > s[j].0
        } else {
            s[i].0 < s[j].0
        }
    &&& forall|i: int|
        0 <= i < s.len() ==> levels_of(v, side).contains_key(#[trigger] s[i].0) && s[i].1
            == volume_at(v, side, s[i].0)
    &&& forall|p: u64|
        #[trigger] levels_of(v, side).contains_key(p) ==> exists|i: int|
            0 <= i < s.len() && s[i].0 == p
}

pub open spec fn level_pairs(r: Seq<(Price, Volume)>) -> Seq<(u64, u64)> {
    r.map_values(|e: (Price, Volume)| (e.0@, e.1))
}

/// The keys of a map come out of its iterator in increasing order.
proof fn lemma_increasing_keys(ks: Seq<&u64>)
    requires
        vstd::std_specs::btree::increasing_seq(ks),
    ensures
        forall|i: int, j: int| 0 <= i < j < ks.len() ==> *ks[i] < *ks[j],
{
    assert(vstd::laws_cmp::obeys_cmp::<&u64>());
    vstd::std_specs::btree::axiom_increasing_seq_meaning(ks);
    assert forall|i: int, j: int| 0 <= i < j < ks.len() implies *ks[i] < *ks[j] by {
        assert((&ks[i]).cmp_spec(&ks[j]) is Less);
    }
}

/// Every price of `queues`, lowest first, with its stored volume.
fn levels_ascending(queues: &BTreeMap<u64, OrderQueue>, volumes: &HashMap<u64, Volume>) -> (r: Vec<
    (Price, Volume),
>)
    requires
        volumes@.dom() == queues@.dom(),
    ensures
        forall|i: int, j: int| 0 <= i < j < r@.len() ==> r@[i].0@ < r@[j].0@,
        forall|i: int|
            0 <= i < r@.len() ==> queues@.contains_key(#[trigger] r@[i].0@) && r@[i].1
                == volumes@[r@[i].0@],
        forall|p: u64| #[trigger]
            queues@.contains_key(p) ==> exists|i: int| 0 <= i < r@.len() && r@[i].0@ == p,
{
    let mut r: Vec<(Price, Volume)> = Vec::new();
    let ghost ks: Seq<&u64> = vstd::std_specs::btree::spec_keys_iter(queues).remaining();
    proof {
        lemma_increasing_keys(ks);
    }
    for k in it: queues.keys()
        invariant
            volumes@.dom() == queues@.dom(),
            it.seq() == ks,
            ks.unref().to_set() == queues@.dom(),
            ks.len() == queues@.dom().len(),
            forall|i: int, j: int| 0 <= i < j < ks.len() ==> *ks[i] < *ks[j],
            r@.len() == it.index(),
            forall|i: int| 0 <= i < it.index() ==> (#[trigger] r@[i]).0@ == *ks[i],
            forall|i: int|
                0 <= i < it.index() ==> (#[trigger] r@[i]).1 == volumes@[*ks[i]],
    {
        proof {
            assert(ks.unref()[it.index() as int] == *k);
            assert(queues@.dom().contains(*k));
        }
        let vol = *volumes.get(k).unwrap();
        r.push((Price::from_raw(*k), vol));
    }
    proof {
        assert(r@.len() == ks.len());
        assert forall|i: int, j: int| 0 <= i < j < r@.len() implies r@[i].0@ < r@[j].0@ by {
            assert(*ks[i] < *ks[j]);
        }
        assert forall|i: int| 0 <= i < r@.len() implies queues@.contains_key(
            #[trigger] r@[i].0@,
        ) by {
            assert(ks.unref()[i] == *ks[i]);
            assert(ks.unref().to_set().contains(ks.unref()[i]));
        }
        assert forall|p: u64| #[trigger] queues@.contains_key(p) implies exists|i: int|
            0 <= i < r@.len() && r@[i].0@ == p by {
            assert(ks.unref().to_set().contains(p));
            let i = choose|i: int| 0 <= i < ks.unref().len() && ks.unref()[i] == p;
            assert(r@[i].0@ == p);
        }
    }
    r
}

/// The price up to which an incoming order may trade (see `limit_of`).
fn order_limit(order: &OrderPtr) -> (l: u64)
    ensures
        l == limit_of(order@),
{
    if order.order_type() == OrderType::Market {
        if order.side() == Side::Bid {
            u64::MAX
        } else {
            0
        }
    } else {
        order.price().raw_value()
    }
}

pub struct OrderBook {
    symbol: String,
    /// All resting orders by id.
    order_map: HashMap<OrderId, OrderPtr>,
    /// Bid price levels (ascending raw price; the last is the best bid).
    bid_queue_map: BTreeMap<u64, OrderQueue>,
    /// Ask price levels (ascending raw price; the first is the best ask).
    ask_queue_map: BTreeMap<u64, OrderQueue>,
    /// Aggregated visible volume per bid price level.
    bid_volume_map: HashMap<u64, Volume>,
    /// Aggregated visible volume per ask price level.
    ask_volume_map: HashMap<u64, Volume>,
    /// All trades executed by this book (newest last).
    pub trades: Vec<Trade<Price>>,
}

impl View for OrderBook {
    type V = BookView;

    closed spec fn view(&self) -> BookView {
        BookView {
            symbol: self.symbol@,
            orders: order_views(self.order_map@),
            bids: queue_views(self.bid_queue_map@),
            asks: queue_views(self.ask_queue_map@),
            trades: self.trades@.map_values(|t: Trade<Price>| t@),
        }
    }
}

impl OrderBook {
    /// The book's data agree with its model, and the stored volumes with its queues.
    pub closed spec fn consistent(&self) -> bool {
        &&& book_consistent(self@)
        &&& volumes_wf(self@.orders, self@.bids, self.bid_volume_map@)
        &&& volumes_wf(self@.orders, self@.asks, self.ask_volume_map@)
    }

    /// A book at rest: consistent, and no bid at or above an ask.
    pub closed spec fn wf(&self) -> bool {
        self.consistent() && uncrossed(self@)
    }

    /// A book at rest is consistent (its stored volumes included) and has every
    /// bid below every ask.
    pub proof fn lemma_at_rest(&self)
        requires
            self.wf(),
        ensures
            self.consistent(),
            book_consistent(self@),
            uncrossed(self@),
    {
    }

    pub fn new(symbol: String) -> (book: Self)
        ensures
            book.wf(),
            book.consistent(),
            book_consistent(book@),
            uncrossed(book@),
            book@.symbol == symbol@,
            book@.orders == Map::<u64, OrderModel>::empty(),
            book@.bids == Map::<u64, Seq<u64>>::empty(),
            book@.asks == Map::<u64, Seq<u64>>::empty(),
            book@.trades == Seq::<Trade<u64>>::empty(),
    {
        let book = OrderBook {
            symbol,
            order_map: HashMap::new(),
            bid_queue_map: BTreeMap::new(),
            ask_queue_map: BTreeMap::new(),
            bid_volume_map: HashMap::new(),
            ask_volume_map: HashMap::new(),
            trades: Vec::new(),
        };
        assert(book@.orders =~= Map::<u64, OrderModel>::empty());
        assert(book@.bids =~= Map::<u64, Seq<u64>>::empty());
        assert(book@.asks =~= Map::<u64, Seq<u64>>::empty());
        assert(book@.trades =~= Seq::<Trade<u64>>::empty());
        assert(book.bid_volume_map@.dom() =~= book@.bids.dom());
        assert(book.ask_volume_map@.dom() =~= book@.asks.dom());
        book
    }

    /// The symbol this book trades.
    pub fn symbol(&self) -> (s: &str)
        ensures
            s@ == self@.symbol,
    {
        self.symbol.as_str()
    }

    /// `true` when no order rests in the book.
    pub fn is_empty(&self) -> (b: bool)
        ensures
            b == self@.orders.is_empty(),
    {
        let b = self.order_map.is_empty();
        proof {
            if !self.order_map@.is_empty() {
                let k = choose|k: u64| self.order_map@.contains_key(k);
                assert(self@.orders.contains_key(k));
            }
        }
        b
    }

    /// Aggregated visible volume at a price level on the given side.
    pub fn volume_at_price(&self, price: Price, side: Side) -> (vol: Volume)
        requires
            self.consistent(),
        ensures
            vol == volume_at(self@, side, price@),
    {
        let p = price.raw_value();
        match side {
            Side::Bid => match self.bid_volume_map.get(&p) {
                Some(v) => *v,
                None => 0,
            },
            Side::Ask => match self.ask_volume_map.get(&p) {
                Some(v) => *v,
                None => 0,
            },
            Side::Invalid => 0,
        }
    }

    /// The best (highest) bid price, if any bid rests.
    pub fn best_bid(&self) -> (r: Option<Price>)
        ensures
            r matches Some(p) ==> best_bid_of(self@) == Some(p@),
            r is None ==> best_bid_of(self@) is None,
    {
        match last_key(&self.bid_queue_map) {
            Some(k) => {
                proof {
                    lemma_best_bid_is(self@, k);
                }
                Some(Price::from_raw(k))
            },
            None => {
                assert(self@.bids.dom() =~= Set::<u64>::empty());
                None
            },
        }
    }

    /// The best (lowest) ask price, if any ask rests.
    pub fn best_ask(&self) -> (r: Option<Price>)
        ensures
            r matches Some(p) ==> best_ask_of(self@) == Some(p@),
            r is None ==> best_ask_of(self@) is None,
    {
        match first_key(&self.ask_queue_map) {
            Some(k) => {
                proof {
                    lemma_best_ask_is(self@, k);
                }
                Some(Price::from_raw(k))
            },
            None => {
                assert(self@.asks.dom() =~= Set::<u64>::empty());
                None
            },
        }
    }

    /// The best bid price and the volume resting there.
    pub fn best_bid_with_volume(&self) -> (r: Option<(Price, Volume)>)
        requires
            self.consistent(),
        ensures
            r matches Some((p, vol)) ==> best_bid_of(self@) == Some(p@) && vol == volume_at(
                self@,
                Side::Bid,
                p@,
            ),
            r is None ==> best_bid_of(self@) is None,
    {
        match self.best_bid() {
            Some(p) => Some((p, self.volume_at_price(p, Side::Bid))),
            None => None,
        }
    }

    /// The best ask price and the volume resting there.
    pub fn best_ask_with_volume(&self) -> (r: Option<(Price, Volume)>)
        requires
            self.consistent(),
        ensures
            r matches Some((p, vol)) ==> best_ask_of(self@) == Some(p@) && vol == volume_at(
                self@,
                Side::Ask,
                p@,
            ),
            r is None ==> best_ask_of(self@) is None,
    {
        match self.best_ask() {
            Some(p) => Some((p, self.volume_at_price(p, Side::Ask))),
            None => None,
        }
    }

    /// `true` if an order on `side` limited at `price` can be matched immediately.
    fn can_match(&self, side: Side, price: Price) -> (b: bool)
        ensures
            b == crosses(self@, side, price@),
    {
        match side {
            Side::Bid => match self.best_ask() {
                Some(a) => price.raw_value() >= a.raw_value(),
                None => false,
            },
            Side::Ask => match self.best_bid() {
                Some(b) => price.raw_value() <= b.raw_value(),
                None => false,
            },
            Side::Invalid => false,
        }
    }

    /// The front order of the level at `p` on `side` gets `q` more units filled.
    fn consume_front_order(&mut self, side: Side, p: u64, q: u64)
        requires
            old(self).consistent(),
            side == Side::Bid || side == Side::Ask,
            levels_of(old(self)@, side).contains_key(p),
            0 < q <= old(self)@.orders[levels_of(old(self)@, side)[p][0]].remaining_quantity,
        ensures
            final(self).consistent(),
            final(self)@ == consume_front(old(self)@, side, p, q),
    {
        let ghost v = self@;
        proof {
            if side == Side::Bid {
                lemma_consume_front(v, side, p, q, self.bid_volume_map@, self.ask_volume_map@);
            } else {
                lemma_consume_front(v, side, p, q, self.ask_volume_map@, self.bid_volume_map@);
            }
        }
        let id = if side == Side::Bid {
            level_front(&self.bid_queue_map, p)
        } else {
            level_front(&self.ask_queue_map, p)
        };
        proof {
            assert(member_ok(v.orders, levels_of(v, side)[p][0], side, p));
        }
        let mut o = *self.order_map.get(&id).unwrap();
        o.fill(q);
        let filled = o.is_filled();
        if side == Side::Bid {
            level_consume_front(&mut self.bid_queue_map, &mut self.bid_volume_map, p, q, filled);
        } else {
            level_consume_front(&mut self.ask_queue_map, &mut self.ask_volume_map, p, q, filled);
        }
        if filled {
            self.order_map.remove(&id);
        } else {
            self.order_map.insert(id, o);
        }
        assert(self@.orders =~= consume(v.orders, id, q));
        assert(self@ =~= consume_front(v, side, p, q));
    }

    /// One match of a crossed book at the given best prices.
    fn match_best_fronts(&mut self, bp: u64, ap: u64)
        requires
            old(self).consistent(),
            best_bid_of(old(self)@) == Some(bp),
            best_ask_of(old(self)@) == Some(ap),
            bp >= ap,
        ensures
            final(self).consistent(),
            final(self)@ == sweep_step(old(self)@),
            sweep_ready(old(self)@),
    {
        let ghost v = self@;
        proof {
            assert(is_max_of(v.bids.dom(), bp));
            assert(is_min_of(v.asks.dom(), ap));
            assert(member_ok(v.orders, v.bids[bp][0], Side::Bid, bp));
            assert(member_ok(v.orders, v.asks[ap][0], Side::Ask, ap));
            assert(order_rests(v, v.bids[bp][0]));
            assert(order_rests(v, v.asks[ap][0]));
        }
        let bid_id = level_front(&self.bid_queue_map, bp);
        let ask_id = level_front(&self.ask_queue_map, ap);
        let bid = *self.order_map.get(&bid_id).unwrap();
        let ask = *self.order_map.get(&ask_id).unwrap();
        let bid_qty = bid.remaining_quantity();
        let ask_qty = ask.remaining_quantity();
        let q = if bid_qty <= ask_qty {
            bid_qty
        } else {
            ask_qty
        };
        let trade = Trade {
            bid_side: TradeSide { order_id: bid_id, price: bid.price(), quantity: q },
            ask_side: TradeSide { order_id: ask_id, price: ask.price(), quantity: q },
        };
        self.trades.push(trade);
        let ghost v1 = self@;
        assert(v1.trades =~= v.trades.push(sweep_trade(v)));
        assert(v1 =~= BookView { trades: v.trades.push(sweep_trade(v)), ..v });
        self.consume_front_order(Side::Ask, ap, q);
        let ghost v2 = self@;
        assert(levels_of(v2, Side::Bid) == levels_of(v1, Side::Bid));
        assert(v2.orders[bid_id] == v1.orders[bid_id]);
        self.consume_front_order(Side::Bid, bp, q);
    }

    /// Match the book until its best bid is below its best ask.
    fn match_orders(&mut self)
        requires
            old(self).consistent(),
        ensures
            final(self).wf(),
            final(self)@ == sweep(old(self)@),
    {
        loop
            invariant
                self.consistent(),
                sweep(self@) == sweep(old(self)@),
            ensures
                self.wf(),
                sweep(self@) == self@,
            decreases self@.orders.dom().len(),
        {
            let bb = last_key(&self.bid_queue_map);
            let ba = first_key(&self.ask_queue_map);
            let (bp, ap) = match (bb, ba) {
                (Some(b), Some(a)) => (b, a),
                _ => {
                    proof {
                        assert(uncrossed(self@));
                        lemma_uncrossed_not_crossed(self@);
                    }
                    break ;
                },
            };
            proof {
                lemma_best_bid_is(self@, bp);
                lemma_best_ask_is(self@, ap);
            }
            if bp < ap {
                proof {
                    assert(uncrossed(self@)) by {
                        assert forall|b: u64, a: u64|
                            #[trigger] self@.bids.contains_key(b) && #[trigger] self@.asks.contains_key(
                                a,
                            ) implies b < a by {
                            assert(self@.bids.dom().contains(b));
                            assert(self@.asks.dom().contains(a));
                        }
                    }
                }
                break ;
            }
            let ghost before = self@;
            self.match_best_fronts(bp, ap);
            proof {
                lemma_sweep_step_shrinks(before);
            }
        }
    }

    /// Match an incoming immediate-or-cancel or market order against the opposite
    /// side for as long as it has something left and its limit (any price, for a
    /// market order) reaches the opposite best; the unfilled remainder is
    /// discarded. Orders of any other type are ignored.
    fn match_ioc_order(&mut self, order: &mut OrderPtr)
        requires
            old(self).wf(),
        ensures
            final(self).wf(),
            final(self)@ == if takes_at_once(old(order)@.order_type) {
                ioc_match(old(self)@, old(order)@)
            } else {
                old(self)@
            },
            final(order)@ == if takes_at_once(old(order)@.order_type) {
                ioc_order_after(old(self)@, old(order)@)
            } else {
                old(order)@
            },
    {
        let otype = order.order_type();
        if otype != OrderType::Ioc && otype != OrderType::Market {
            return ;
        }
        let market = otype == OrderType::Market;
        let order_price = order.price();
        let side = order.side();
        let order_id = order.order_id();
        let limit = order_limit(order);
        loop
            invariant
                self.wf(),
                ioc_match(self@, order@) == ioc_match(old(self)@, old(order)@),
                ioc_order_after(self@, order@) == ioc_order_after(old(self)@, old(order)@),
                order@.side == side,
                order@.price == order_price@,
                order@.order_id == order_id,
                order@.order_type == otype,
                market == (otype == OrderType::Market),
                limit == limit_of(order@),
            ensures
                self.wf(),
                ioc_match(self@, order@) == self@,
                ioc_order_after(self@, order@) == order@,
            decreases self@.orders.dom().len(), order@.remaining_quantity,
        {
            if order.is_filled() {
                break ;
            }
            let ghost v = self@;
            let ghost ov = order@;
            if side == Side::Bid {
                let ap = match first_key(&self.ask_queue_map) {
                    Some(a) => a,
                    None => {
                        assert(best_ask_of(v) is None);
                        break ;
                    },
                };
                proof {
                    lemma_best_ask_is(v, ap);
                }
                if limit < ap {
                    break ;
                }
                proof {
                    assert(member_ok(v.orders, v.asks[ap][0], Side::Ask, ap));
                    assert(order_rests(v, v.asks[ap][0]));
                }
                let ask_id = level_front(&self.ask_queue_map, ap);
                let ask = *self.order_map.get(&ask_id).unwrap();
                let ask_qty = ask.remaining_quantity();
                let order_qty = order.remaining_quantity();
                let q = if ask_qty <= order_qty {
                    ask_qty
                } else {
                    order_qty
                };
                order.fill(q);
                self.trades.push(
                    Trade {
                        bid_side: TradeSide {
                            order_id: order_id,
                            price: if market {
                                ask.price()
                            } else {
                                order_price
                            },
                            quantity: q,
                        },
                        ask_side: TradeSide { order_id: ask_id, price: ask.price(), quantity: q },
                    },
                );
                assert(self@.trades =~= v.trades.push(ioc_trade(v, ov)));
                assert(self@ =~= BookView { trades: v.trades.push(ioc_trade(v, ov)), ..v });
                self.consume_front_order(Side::Ask, ap, q);
                proof {
                    lemma_uncrossed_subset(v, self@);
                    lemma_consume_orders(v.orders, ask_id, q);
                }
            } else if side == Side::Ask {
                let bp = match last_key(&self.bid_queue_map) {
                    Some(b) => b,
                    None => {
                        assert(best_bid_of(v) is None);
                        break ;
                    },
                };
                proof {
                    lemma_best_bid_is(v, bp);
                }
                if limit > bp {
                    break ;
                }
                proof {
                    assert(member_ok(v.orders, v.bids[bp][0], Side::Bid, bp));
                    assert(order_rests(v, v.bids[bp][0]));
                }
                let bid_id = level_front(&self.bid_queue_map, bp);
                let bid = *self.order_map.get(&bid_id).unwrap();
                let bid_qty = bid.remaining_quantity();
                let order_qty = order.remaining_quantity();
                let q = if bid_qty <= order_qty {
                    bid_qty
                } else {
                    order_qty
                };
                order.fill(q);
                self.trades.push(
                    Trade {
                        bid_side: TradeSide { order_id: bid_id, price: bid.price(), quantity: q },
                        ask_side: TradeSide {
                            order_id: order_id,
                            price: if market {
                                bid.price()
                            } else {
                                order_price
                            },
                            quantity: q,
                        },
                    },
                );
                assert(self@.trades =~= v.trades.push(ioc_trade(v, ov)));
                assert(self@ =~= BookView { trades: v.trades.push(ioc_trade(v, ov)), ..v });
                self.consume_front_order(Side::Bid, bp, q);
                proof {
                    lemma_uncrossed_subset(v, self@);
                    lemma_consume_orders(v.orders, bid_id, q);
                }
            } else {
                break ;
            }
        }
    }

    /// Add an order. An immediate-or-cancel order is accepted only when it can
    /// trade at once, a market order only when the other side holds orders; either
    /// trades as far as it can (a market order at the prices it meets) and never
    /// rests. Any other order
    /// with a valid side rests in the book, which is then matched until it is no
    /// longer crossed. An order whose id already rests is refused. When the call
    /// returns, `order` shows what has become of the order (see `added_order_after`).
    pub fn add_order(&mut self, order: &mut OrderPtr) -> (accepted: bool)
        requires
            old(self).wf(),
            add_order_ok(old(self)@, old(order)@),
        ensures
            final(self).wf(),
            final(self).consistent(),
            (final(self)@, accepted) == add_order_result(old(self)@, old(order)@),
            final(order)@ == added_order_after(old(self)@, old(order)@),
            book_consistent(final(self)@),
            uncrossed(final(self)@),
    {
        let order_id = order.order_id();
        if self.order_map.contains_key(&order_id) {
            return false;
        }
        let price = order.price();
        let qty = order.initial_quantity();
        let otype = order.order_type();
        let side = order.side();
        if otype == OrderType::Ioc || otype == OrderType::Market {
            if !self.can_match(side, Price::from_raw(order_limit(order))) {
                return false;
            }
            self.match_ioc_order(order);
            return true;
        }
        let p = price.raw_value();
        let ghost v = self@;
        let placed = *order;
        match side {
            Side::Bid => {
                proof {
                    lemma_rest_order(v, placed@, self.bid_volume_map@, self.ask_volume_map@);
                }
                level_rest(&mut self.bid_queue_map, &mut self.bid_volume_map, p, placed, qty);
            },
            Side::Ask => {
                proof {
                    lemma_rest_order(v, placed@, self.ask_volume_map@, self.bid_volume_map@);
                }
                level_rest(&mut self.ask_queue_map, &mut self.ask_volume_map, p, placed, qty);
            },
            Side::Invalid => {
                return false;
            },
        }
        self.order_map.insert(order_id, placed);
        assert(self@.orders =~= v.orders.insert(order_id, placed@));
        assert(self@ =~= rest_order(v, placed@));
        self.match_orders();
        match self.order_map.get(&order_id) {
            Some(now) => {
                *order = *now;
            },
            None => {
                let left = order.remaining_quantity();
                order.fill(left);
            },
        }
        true
    }

    /// Cancel a resting order by id; `false` when no such order rests.
    pub fn cancel_order(&mut self, order_id: OrderId) -> (cancelled: bool)
        requires
            old(self).wf(),
        ensures
            final(self).wf(),
            final(self).consistent(),
            (final(self)@, cancelled) == cancel_result(old(self)@, order_id),
            book_consistent(final(self)@),
            uncrossed(final(self)@),
    {
        let order = match self.order_map.get(&order_id) {
            Some(o) => *o,
            None => {
                return false;
            },
        };
        let ghost v = self@;
        let side = order.side();
        let p = order.price().raw_value();
        let qty = order.remaining_quantity();
        match side {
            Side::Bid => {
                proof {
                    lemma_cancel(v, order_id, self.bid_volume_map@, self.ask_volume_map@);
                }
                level_cancel(&mut self.bid_queue_map, &mut self.bid_volume_map, p, order_id, qty);
            },
            Side::Ask => {
                proof {
                    lemma_cancel(v, order_id, self.ask_volume_map@, self.bid_volume_map@);
                }
                level_cancel(&mut self.ask_queue_map, &mut self.ask_volume_map, p, order_id, qty);
            },
            Side::Invalid => {
                proof {
                    assert(order_rests(v, order_id));
                }
            },
        }
        self.order_map.remove(&order_id);
        assert(self@.orders =~= v.orders.remove(order_id));
        assert(self@ =~= cancel_result(v, order_id).0);
        proof {
            lemma_uncrossed_subset(v, self@);
        }
        true
    }

    /// Modify a resting order: cancel it and add, under the same id and of the same
    /// order type, an order with the new side, price and quantity.
    pub fn update_order(&mut self, modify: &ModifyOrderMsg<Price>) -> (accepted: bool)
        requires
            old(self).wf(),
            update_order_ok(
                old(self)@,
                modify.order_id,
                modify.side,
                modify.price@,
                modify.quantity,
                modify.update_time_ns,
            ),
        ensures
            final(self).wf(),
            final(self).consistent(),
            (final(self)@, accepted) == update_result(
                old(self)@,
                modify.order_id,
                modify.side,
                modify.price@,
                modify.quantity,
                modify.update_time_ns,
            ),
            book_consistent(final(self)@),
            uncrossed(final(self)@),
    {
        let orig_type = match self.order_map.get(&modify.order_id) {
            Some(o) => o.order_type(),
            None => {
                return false;
            },
        };
        self.cancel_order(modify.order_id);
        let mut replacement = new_order_ptr(
            orig_type,
            modify.side,
            modify.order_id,
            modify.price,
            modify.quantity,
            modify.update_time_ns,
        );
        self.add_order(&mut replacement)
    }

    /// Whether `add_order` may be called with `order`: a fresh order that would
    /// rest has a positive quantity that fits into its level's volume.
    pub fn accepts(&self, order: &OrderPtr) -> (b: bool)
        requires
            self.wf(),
        ensures
            b == add_order_ok(self@, order@),
    {
        let rests = order.order_type() != OrderType::Ioc && order.order_type() != OrderType::Market
            && order.side() != Side::Invalid
            && !self.order_map.contains_key(&order.order_id());
        if !rests {
            return true;
        }
        let qty = order.initial_quantity();
        if order.remaining_quantity() != qty || qty == 0 {
            return false;
        }
        let vol = self.volume_at_price(order.price(), order.side());
        vol <= u64::MAX - qty
    }

    /// Whether `update_order` may be called with `modify`.
    pub fn accepts_update(&self, modify: &ModifyOrderMsg<Price>) -> (b: bool)
        requires
            self.wf(),
        ensures
            b == update_order_ok(
                self@,
                modify.order_id,
                modify.side,
                modify.price@,
                modify.quantity,
                modify.update_time_ns,
            ),
    {
        let existing = match self.order_map.get(&modify.order_id) {
            None => {
                return true;
            },
            Some(o) => *o,
        };
        let ghost v = self@;
        let ghost o = v.orders[modify.order_id];
        let ghost v2 = cancel_result(v, modify.order_id).0;
        let replacement = new_order_ptr(
            existing.order_type(),
            modify.side,
            modify.order_id,
            modify.price,
            modify.quantity,
            modify.update_time_ns,
        );
        if replacement.order_type() == OrderType::Ioc || replacement.order_type() == OrderType::Market
            || modify.side == Side::Invalid {
            return true;
        }
        // After the cancel the id is free again; what rests at the new price is the
        // old level's volume, less the cancelled order when it rested at that price
        // on that side.
        proof {
            lemma_cancel(
                v,
                modify.order_id,
                if o.side == Side::Bid { self.bid_volume_map@ } else { self.ask_volume_map@ },
                if o.side == Side::Bid { self.ask_volume_map@ } else { self.bid_volume_map@ },
            );
            assert(!v2.orders.contains_key(modify.order_id));
        }
        let qty = modify.quantity;
        if qty == 0 {
            return false;
        }
        let mut vol = self.volume_at_price(modify.price, modify.side);
        if existing.side() == modify.side && existing.price().raw_value() == modify.price.raw_value() {
            vol = vol - existing.remaining_quantity();
        }
        proof {
            assert(volume_at(v2, modify.side, modify.price@) == vol);
        }
        vol <= u64::MAX - qty
    }

    /// The levels of the book with their volumes: the bids from the highest price
    /// down, the asks from the lowest price up.
    pub fn depth(&self) -> (r: (Vec<(Price, Volume)>, Vec<(Price, Volume)>))
        requires
            self.consistent(),
        ensures
            is_level_list(self@, Side::Bid, level_pairs(r.0@), true),
            is_level_list(self@, Side::Ask, level_pairs(r.1@), false),
    {
        assert(self@.bids.dom() =~= self.bid_queue_map@.dom());
        assert(self@.asks.dom() =~= self.ask_queue_map@.dom());
        let up = levels_ascending(&self.bid_queue_map, &self.bid_volume_map);
        let mut bids: Vec<(Price, Volume)> = Vec::new();
        let mut i = up.len();
        while i > 0
            invariant
                i <= up@.len(),
                bids@.len() == up@.len() - i,
                forall|j: int| 0 <= j < bids@.len() ==> #[trigger] bids@[j] == up@[up@.len() - 1 - j],
            decreases i,
        {
            i = i - 1;
            bids.push(up[i]);
        }
        let asks = levels_ascending(&self.ask_queue_map, &self.ask_volume_map);
        let ghost v = self@;
        let ghost bp = level_pairs(bids@);
        let ghost ap = level_pairs(asks@);
        proof {
            assert forall|j: int, k: int| 0 <= j < k < bp.len() implies bp[j].0 > bp[k].0 by {
                assert(bids@[j] == up@[up@.len() - 1 - j]);
                assert(bids@[k] == up@[up@.len() - 1 - k]);
            }
            assert forall|j: int| 0 <= j < bp.len() implies levels_of(v, Side::Bid).contains_key(
                #[trigger] bp[j].0,
            ) && bp[j].1 == volume_at(v, Side::Bid, bp[j].0) by {
                assert(bids@[j] == up@[up@.len() - 1 - j]);
            }
            assert forall|p: u64| #[trigger] levels_of(v, Side::Bid).contains_key(p) implies exists|j: int|
                0 <= j < bp.len() && bp[j].0 == p by {
                let k = choose|k: int| 0 <= k < up@.len() && up@[k].0@ == p;
                assert(bp[up@.len() - 1 - k].0 == p);
            }
            assert forall|p: u64| #[trigger] levels_of(v, Side::Ask).contains_key(p) implies exists|j: int|
                0 <= j < ap.len() && ap[j].0 == p by {
                let k = choose|k: int| 0 <= k < asks@.len() && asks@[k].0@ == p;
                assert(ap[k].0 == p);
            }
        }
        (bids, asks)
    }
}

} // verus!
