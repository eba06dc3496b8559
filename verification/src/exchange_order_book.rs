//! Exchange-level container that routes messages to one order book per
//! instrument and remembers which symbol names which instrument.
use std::collections::HashMap;
use vstd::prelude::*;

use crate::book_model::{
    add_order_ok, add_order_result, cancel_result, update_order_ok, update_result, volume_at,
    BookView,
};
use crate::book_laws::law_add_order;
use crate::book_model::{book_consistent, uncrossed};
use crate::clock::now_ns;
use crate::messages::{AddOrderMsg, CancelOrderMsg, CoreMessage, ModifyOrderMsg, Price, SymbolMsg};
use crate::order::{new_order_model, new_order_ptr, OrderModel};
use crate::order_book::OrderBook;
use crate::trade::Trade;
use crate::types::{InstrumentId, OrderType, Side};

verus! {

broadcast use vstd::std_specs::hash::group_hash_axioms;

pub struct ExchangeView {
    pub name: Seq<char>,
    /// instrument id -> its book
    pub books: Map<u64, BookView>,
    /// symbol name -> instrument id
    pub symbols: Map<Seq<char>, u64>,
    /// (symbol name, instrument id), in order of first registration
    pub registrations: Seq<(Seq<char>, u64)>,
}

/// A new, empty book for `symbol`.
pub open spec fn empty_book(symbol: Seq<char>) -> BookView {
    BookView {
        symbol,
        orders: Map::empty(),
        bids: Map::empty(),
        asks: Map::empty(),
        trades: Seq::empty(),
    }
}

/// The order an add message stands for, created at time `t`.
pub open spec fn add_msg_order(msg: AddOrderMsg<Price>, t: u64) -> OrderModel {
    new_order_model(msg.order_type, msg.side, msg.order_id, msg.price@, msg.quantity, t)
}

/// The registered symbols as a map (the entries have distinct names).
pub open spec fn symbol_entries(s: Seq<(String, u64)>) -> Map<Seq<char>, u64> {
    Map::new(
        |k: Seq<char>| exists|i: int| 0 <= i < s.len() && (#[trigger] s[i]).0@ == k,
        |k: Seq<char>| s[choose|i: int| 0 <= i < s.len() && (#[trigger] s[i]).0@ == k].1,
    )
}

pub open spec fn registration_views(s: Seq<(String, u64)>) -> Seq<(Seq<char>, u64)> {
    s.map_values(|e: (String, u64)| (e.0@, e.1))
}

pub open spec fn distinct_symbols(s: Seq<(String, u64)>) -> bool {
    forall|i: int, j: int| 0 <= i < j < s.len() ==> (#[trigger] s[i]).0@ != (#[trigger] s[j]).0@
}

/// Whether the book of the message's instrument (if there is one) can take the order
/// that an add message stands for, whatever its creation time.
pub open spec fn add_msg_ok(ex: ExchangeView, msg: AddOrderMsg<Price>) -> bool {
    ex.books.contains_key(msg.instrument_id) ==> add_order_ok(
        ex.books[msg.instrument_id],
        add_msg_order(msg, 0),
    )
}

/// Whether the book of the message's instrument (if there is one) can replace the order.
pub open spec fn modify_msg_ok(ex: ExchangeView, msg: ModifyOrderMsg<Price>) -> bool {
    ex.books.contains_key(msg.instrument_id) ==> update_order_ok(
        ex.books[msg.instrument_id],
        msg.order_id,
        msg.side,
        msg.price@,
        msg.quantity,
        msg.update_time_ns,
    )
}

/// What registering a symbol does: its instrument gets a new, empty book, and the
/// symbol names that instrument from now on (a new symbol is listed last).
pub open spec fn symbol_effect(old: ExchangeView, new: ExchangeView, msg: SymbolMsg<Price>) -> bool {
    &&& new.name == old.name
    &&& new.books == old.books.insert(msg.instrument_id, empty_book(msg.symbol@))
    &&& new.symbols == old.symbols.insert(msg.symbol@, msg.instrument_id)
    &&& (exists|i: int|
        0 <= i < old.registrations.len() && (#[trigger] old.registrations[i]).0 == msg.symbol@
            && new.registrations == old.registrations.update(i, (msg.symbol@, msg.instrument_id)))
        || (!(exists|i: int|
        0 <= i < old.registrations.len() && (#[trigger] old.registrations[i]).0 == msg.symbol@)
        && new.registrations == old.registrations.push((msg.symbol@, msg.instrument_id)))
}

/// Only the book of `id` may have changed, into `book`.
pub open spec fn only_book_changed(old: ExchangeView, new: ExchangeView, id: u64) -> bool {
    &&& new.name == old.name
    &&& new.symbols == old.symbols
    &&& new.registrations == old.registrations
    &&& old.books.contains_key(id) ==> new.books == old.books.insert(id, new.books[id])
    &&& !old.books.contains_key(id) ==> new.books == old.books
}

/// What an add message does: the book of its instrument adds the order it stands
/// for, created at some time `t`; no book, no change and `false`.
pub open spec fn add_effect(
    old: ExchangeView,
    new: ExchangeView,
    msg: AddOrderMsg<Price>,
    accepted: bool,
) -> bool {
    &&& only_book_changed(old, new, msg.instrument_id)
    &&& !old.books.contains_key(msg.instrument_id) ==> !accepted
    &&& old.books.contains_key(msg.instrument_id) ==> exists|t: u64|
        (new.books[msg.instrument_id], accepted) == add_order_result(
            old.books[msg.instrument_id],
            #[trigger] add_msg_order(msg, t),
        )
}

/// What a modify message does to the book of its instrument.
pub open spec fn modify_effect(
    old: ExchangeView,
    new: ExchangeView,
    msg: ModifyOrderMsg<Price>,
    accepted: bool,
) -> bool {
    &&& only_book_changed(old, new, msg.instrument_id)
    &&& !old.books.contains_key(msg.instrument_id) ==> !accepted
    &&& old.books.contains_key(msg.instrument_id) ==> (new.books[msg.instrument_id], accepted)
        == update_result(
        old.books[msg.instrument_id],
        msg.order_id,
        msg.side,
        msg.price@,
        msg.quantity,
        msg.update_time_ns,
    )
}

/// What a cancel message does to the book of its instrument.
pub open spec fn cancel_effect(
    old: ExchangeView,
    new: ExchangeView,
    msg: CancelOrderMsg,
    cancelled: bool,
) -> bool {
    &&& only_book_changed(old, new, msg.instrument_id)
    &&& !old.books.contains_key(msg.instrument_id) ==> !cancelled
    &&& old.books.contains_key(msg.instrument_id) ==> (new.books[msg.instrument_id], cancelled)
        == cancel_result(old.books[msg.instrument_id], msg.order_id)
}

/// Whether a message may be processed (see `add_msg_ok`, `modify_msg_ok`).
pub open spec fn message_ok(ex: ExchangeView, msg: CoreMessage<Price>) -> bool {
    match msg {
        CoreMessage::AddOrder(m) => add_msg_ok(ex, m),
        CoreMessage::ModifyOrder(m) => modify_msg_ok(ex, m),
        _ => true,
    }
}

/// Inserting an element anywhere adds it once to the multiset of elements.
proof fn lemma_insert_to_multiset<A>(s: Seq<A>, j: int, x: A)
    requires
        0 <= j <= s.len(),
    ensures
        s.insert(j, x).to_multiset() == s.to_multiset().insert(x),
{
    broadcast use vstd::seq_lib::group_to_multiset_ensures;
    broadcast use vstd::multiset::group_multiset_axioms;

    let t = s.insert(j, x);
    assert(t.remove(j) =~= s);
    assert(t[j] == x);
    assert(t.to_multiset().count(x) > 0);
    assert(t.to_multiset() =~= t.to_multiset().remove(x).insert(x));
}

pub struct ExchangeOrderBook {
    exchange_name: String,
    /// instrument id -> order book
    instrument_map: HashMap<InstrumentId, OrderBook>,
    /// symbol name -> instrument id, in order of first registration
    symbol_map: Vec<(String, InstrumentId)>,
}

impl View for ExchangeOrderBook {
    type V = ExchangeView;

    closed spec fn view(&self) -> ExchangeView {
        ExchangeView {
            name: self.exchange_name@,
            books: self.instrument_map@.map_values(|b: OrderBook| b@),
            symbols: symbol_entries(self.symbol_map@),
            registrations: registration_views(self.symbol_map@),
        }
    }
}

impl ExchangeOrderBook {
    /// Every book is at rest and well formed; each symbol is registered once.
    pub closed spec fn wf(&self) -> bool {
        &&& forall|id: u64| #[trigger]
            self.instrument_map@.contains_key(id) ==> self.instrument_map@[id].wf()
        &&& distinct_symbols(self.symbol_map@)
    }

    pub fn new(name: String) -> (ex: Self)
        ensures
            ex.wf(),
            ex@.name == name@,
            ex@.books == Map::<u64, BookView>::empty(),
            ex@.symbols == Map::<Seq<char>, u64>::empty(),
            ex@.registrations == Seq::<(Seq<char>, u64)>::empty(),
    {
        let ex = ExchangeOrderBook {
            exchange_name: name,
            instrument_map: HashMap::new(),
            symbol_map: Vec::new(),
        };
        assert(ex@.books =~= Map::<u64, BookView>::empty());
        assert(ex@.symbols =~= Map::<Seq<char>, u64>::empty());
        assert(ex@.registrations =~= Seq::<(Seq<char>, u64)>::empty());
        ex
    }

    /// Register (or re-register) a symbol: its instrument gets a new, empty book,
    /// and the symbol names that instrument from now on.
    #[verifier::loop_isolation(false)]
    pub fn add_update_symbol(&mut self, msg: &SymbolMsg<Price>)
        requires
            old(self).wf(),
        ensures
            final(self).wf(),
            symbol_effect(old(self)@, final(self)@, *msg),
    {
        let book = OrderBook::new(msg.symbol.clone());
        self.instrument_map.insert(msg.instrument_id, book);
        assert(self@.books =~= old(self)@.books.insert(msg.instrument_id, empty_book(msg.symbol@)));
        assert(self.exchange_name@ == old(self).exchange_name@);
        assert(forall|id: u64| #[trigger]
            self.instrument_map@.contains_key(id) ==> self.instrument_map@[id].wf());
        let ghost s = self.symbol_map@;
        let ghost m = self.instrument_map@;
        let mut i: usize = 0;
        while i < self.symbol_map.len()
            invariant
                0 <= i <= self.symbol_map@.len(),
                self.symbol_map@ == s,
                self.instrument_map@ == m,
                self.exchange_name@ == old(self).exchange_name@,
                forall|j: int| 0 <= j < i ==> (#[trigger] s[j]).0@ != msg.symbol@,
            decreases self.symbol_map@.len() - i,
        {
            if self.symbol_map[i].0 == msg.symbol {
                self.symbol_map.set(i, (msg.symbol.clone(), msg.instrument_id));
                proof {
                    let s2 = self.symbol_map@;
                    assert(distinct_symbols(s2)) by {
                        assert forall|a: int, b: int| 0 <= a < b < s2.len() implies (#[trigger] s2[a]).0@
                            != (#[trigger] s2[b]).0@ by {
                            assert(s[a].0@ != s[b].0@);
                        }
                    }
                    assert forall|k: Seq<char>| #[trigger] symbol_entries(s2).contains_key(k)
                        == symbol_entries(s).insert(msg.symbol@, msg.instrument_id).contains_key(
                        k,
                    ) by {
                        if symbol_entries(s).contains_key(k) {
                            let a = choose|a: int| 0 <= a < s.len() && (#[trigger] s[a]).0@ == k;
                            assert(s2[a].0@ == k);
                        }
                        if symbol_entries(s2).contains_key(k) {
                            let a = choose|a: int| 0 <= a < s2.len() && (#[trigger] s2[a]).0@ == k;
                            assert(a == i || s[a].0@ == k);
                        }
                    }
                    assert forall|k: Seq<char>| #[trigger]
                        symbol_entries(s2).contains_key(k) implies symbol_entries(s2)[k]
                        == symbol_entries(s).insert(msg.symbol@, msg.instrument_id)[k] by {
                        let a = choose|a: int| 0 <= a < s2.len() && (#[trigger] s2[a]).0@ == k;
                        if k != msg.symbol@ {
                            let b = choose|b: int| 0 <= b < s.len() && (#[trigger] s[b]).0@ == k;
                            assert(s[a].0@ == k);
                            assert(a == b) by {
                                if a != b {
                                    if a < b {
                                        assert(s[a].0@ != s[b].0@);
                                    } else {
                                        assert(s[b].0@ != s[a].0@);
                                    }
                                }
                            }
                        } else {
                            assert(a == i) by {
                                if a != i {
                                    if a < i {
                                        assert(s2[a].0@ != s2[i as int].0@);
                                    } else {
                                        assert(s2[i as int].0@ != s2[a].0@);
                                    }
                                }
                            }
                        }
                    }
                    assert(symbol_entries(s2) =~= symbol_entries(s).insert(
                        msg.symbol@,
                        msg.instrument_id,
                    ));
                }
                assert(self.exchange_name@ == old(self).exchange_name@);
                assert(registration_views(self.symbol_map@) =~= registration_views(s).update(
                    i as int,
                    (msg.symbol@, msg.instrument_id),
                ));
                assert(registration_views(s)[i as int].0 == msg.symbol@);
                return ;
            }
            i = i + 1;
        }
        self.symbol_map.push((msg.symbol.clone(), msg.instrument_id));
        assert(registration_views(self.symbol_map@) =~= registration_views(s).push(
            (msg.symbol@, msg.instrument_id),
        ));
        assert(!(exists|j: int|
            0 <= j < registration_views(s).len() && (#[trigger] registration_views(s)[j]).0
                == msg.symbol@)) by {
            if exists|j: int|
                0 <= j < registration_views(s).len() && (#[trigger] registration_views(s)[j]).0
                    == msg.symbol@ {
                let j = choose|j: int|
                    0 <= j < registration_views(s).len() && (#[trigger] registration_views(s)[j]).0
                        == msg.symbol@;
                assert(s[j].0@ == msg.symbol@);
            }
        }
        proof {
            let s2 = self.symbol_map@;
            let n = s.len() as int;
            assert(s2[n].0@ == msg.symbol@);
            assert(distinct_symbols(s2)) by {
                assert forall|a: int, b: int| 0 <= a < b < s2.len() implies (#[trigger] s2[a]).0@
                    != (#[trigger] s2[b]).0@ by {
                    if b < n {
                        assert(s[a].0@ != s[b].0@);
                    } else {
                        assert(s[a].0@ != msg.symbol@);
                    }
                }
            }
            assert forall|k: Seq<char>| #[trigger] symbol_entries(s2).contains_key(k)
                == symbol_entries(s).insert(msg.symbol@, msg.instrument_id).contains_key(k) by {
                if symbol_entries(s).contains_key(k) {
                    let a = choose|a: int| 0 <= a < s.len() && (#[trigger] s[a]).0@ == k;
                    assert(s2[a].0@ == k);
                }
                if symbol_entries(s2).contains_key(k) {
                    let a = choose|a: int| 0 <= a < s2.len() && (#[trigger] s2[a]).0@ == k;
                    assert(a == n || s[a].0@ == k);
                }
            }
            assert forall|k: Seq<char>| #[trigger]
                symbol_entries(s2).contains_key(k) implies symbol_entries(s2)[k]
                == symbol_entries(s).insert(msg.symbol@, msg.instrument_id)[k] by {
                let a = choose|a: int| 0 <= a < s2.len() && (#[trigger] s2[a]).0@ == k;
                if k != msg.symbol@ {
                    let b = choose|b: int| 0 <= b < s.len() && (#[trigger] s[b]).0@ == k;
                    assert(a < n);
                    assert(s[a].0@ == k);
                    assert(a == b) by {
                        if a != b {
                            if a < b {
                                assert(s[a].0@ != s[b].0@);
                            } else {
                                assert(s[b].0@ != s[a].0@);
                            }
                        }
                    }
                } else {
                    assert(a == n);
                }
            }
            assert(symbol_entries(s2) =~= symbol_entries(s).insert(msg.symbol@, msg.instrument_id));
        }
    }

    /// Submit a new order to the book of its instrument, stamped with the current
    /// time; `false` when the instrument has no book or the book refuses the order.
    pub fn add_new_order(&mut self, msg: &AddOrderMsg<Price>) -> (accepted: bool)
        requires
            old(self).wf(),
            add_msg_ok(old(self)@, *msg),
        ensures
            final(self).wf(),
            add_effect(old(self)@, final(self)@, *msg, accepted),
    {
        if !self.instrument_map.contains_key(&msg.instrument_id) {
            return false;
        }
        let mut book = self.instrument_map.remove(&msg.instrument_id).unwrap();
        let now = now_ns();
        let mut order = new_order_ptr(
            msg.order_type,
            msg.side,
            msg.order_id,
            msg.price,
            msg.quantity,
            now,
        );
        assert(order@ == add_msg_order(*msg, now));
        let accepted = book.add_order(&mut order);
        self.instrument_map.insert(msg.instrument_id, book);
        assert(self@.books =~= old(self)@.books.insert(
            msg.instrument_id,
            self@.books[msg.instrument_id],
        ));
        accepted
    }

    /// Modify a resting order in the book of its instrument; `false` when the
    /// instrument has no book or the order does not rest there.
    pub fn update_order(&mut self, msg: &ModifyOrderMsg<Price>) -> (accepted: bool)
        requires
            old(self).wf(),
            modify_msg_ok(old(self)@, *msg),
        ensures
            final(self).wf(),
            modify_effect(old(self)@, final(self)@, *msg, accepted),
    {
        if !self.instrument_map.contains_key(&msg.instrument_id) {
            return false;
        }
        let mut book = self.instrument_map.remove(&msg.instrument_id).unwrap();
        let accepted = book.update_order(msg);
        self.instrument_map.insert(msg.instrument_id, book);
        assert(self@.books =~= old(self)@.books.insert(
            msg.instrument_id,
            self@.books[msg.instrument_id],
        ));
        accepted
    }

    /// Cancel a resting order in the book of its instrument; `false` when the
    /// instrument has no book or the order does not rest there.
    pub fn cancel_order(&mut self, msg: &CancelOrderMsg) -> (cancelled: bool)
        requires
            old(self).wf(),
        ensures
            final(self).wf(),
            cancel_effect(old(self)@, final(self)@, *msg, cancelled),
    {
        if !self.instrument_map.contains_key(&msg.instrument_id) {
            return false;
        }
        let mut book = self.instrument_map.remove(&msg.instrument_id).unwrap();
        let cancelled = book.cancel_order(msg.order_id);
        self.instrument_map.insert(msg.instrument_id, book);
        assert(self@.books =~= old(self)@.books.insert(
            msg.instrument_id,
            self@.books[msg.instrument_id],
        ));
        cancelled
    }

    /// Route one message to the operation it asks for. The result is the
    /// operation's own (a symbol registration always succeeds).
    pub fn process_message(&mut self, msg: &CoreMessage<Price>) -> (ok: bool)
        requires
            old(self).wf(),
            message_ok(old(self)@, *msg),
        ensures
            final(self).wf(),
            match *msg {
                CoreMessage::Symbol(m) => ok && symbol_effect(old(self)@, final(self)@, m),
                CoreMessage::AddOrder(m) => add_effect(old(self)@, final(self)@, m, ok),
                CoreMessage::ModifyOrder(m) => modify_effect(old(self)@, final(self)@, m, ok),
                CoreMessage::CancelOrder(m) => cancel_effect(old(self)@, final(self)@, m, ok),
            },
    {
        match msg {
            CoreMessage::Symbol(m) => {
                self.add_update_symbol(m);
                true
            },
            CoreMessage::AddOrder(m) => self.add_new_order(m),
            CoreMessage::ModifyOrder(m) => self.update_order(m),
            CoreMessage::CancelOrder(m) => self.cancel_order(m),
        }
    }

    /// Whether `process_message` may be called with `msg`.
    pub fn message_allowed(&self, msg: &CoreMessage<Price>) -> (b: bool)
        requires
            self.wf(),
        ensures
            b == message_ok(self@, *msg),
    {
        match msg {
            CoreMessage::AddOrder(m) => self.add_new_order_allowed(m),
            CoreMessage::ModifyOrder(m) => self.update_order_allowed(m),
            _ => true,
        }
    }

    /// The book of an instrument, if it has one.
    pub fn book(&self, instrument_id: InstrumentId) -> (r: Option<&OrderBook>)
        requires
            self.wf(),
        ensures
            r matches Some(b) ==> self@.books.contains_key(instrument_id) && b@ == self@.books[instrument_id]
                && b.wf() && b.consistent(),
            r is None ==> !self@.books.contains_key(instrument_id),
    {
        let r = self.instrument_map.get(&instrument_id);
        proof {
            if let Some(b) = r {
                b.lemma_at_rest();
            }
        }
        r
    }

    /// The instrument that a symbol names, if it is registered.
    pub fn instrument_of(&self, symbol: &str) -> (r: Option<InstrumentId>)
        requires
            self.wf(),
        ensures
            r matches Some(id) ==> self@.symbols.contains_key(symbol@) && self@.symbols[symbol@]
                == id,
            r is None ==> !self@.symbols.contains_key(symbol@),
    {
        let wanted = symbol.to_owned();
        let ghost s = self.symbol_map@;
        let mut i: usize = 0;
        while i < self.symbol_map.len()
            invariant
                0 <= i <= s.len(),
                s == self.symbol_map@,
                distinct_symbols(s),
                wanted@ == symbol@,
                forall|j: int| 0 <= j < i ==> (#[trigger] s[j]).0@ != symbol@,
            decreases s.len() - i,
        {
            if self.symbol_map[i].0 == wanted {
                proof {
                    let k = symbol@;
                    assert(s[i as int].0@ == k);
                    let a = choose|a: int| 0 <= a < s.len() && (#[trigger] s[a]).0@ == k;
                    assert(a == i) by {
                        if a < i {
                            assert(s[a].0@ != k);
                        } else if a > i {
                            assert(s[i as int].0@ != s[a].0@);
                        }
                    }
                }
                return Some(self.symbol_map[i].1);
            }
            i = i + 1;
        }
        None
    }

    /// Whether `add_new_order` may be called with `msg`.
    pub fn add_new_order_allowed(&self, msg: &AddOrderMsg<Price>) -> (b: bool)
        requires
            self.wf(),
        ensures
            b == add_msg_ok(self@, *msg),
    {
        match self.instrument_map.get(&msg.instrument_id) {
            None => true,
            Some(book) => {
                let order = new_order_ptr(
                    msg.order_type,
                    msg.side,
                    msg.order_id,
                    msg.price,
                    msg.quantity,
                    0,
                );
                book.accepts(&order)
            },
        }
    }

    /// Whether `update_order` may be called with `msg`.
    pub fn update_order_allowed(&self, msg: &ModifyOrderMsg<Price>) -> (b: bool)
        requires
            self.wf(),
        ensures
            b == modify_msg_ok(self@, *msg),
    {
        match self.instrument_map.get(&msg.instrument_id) {
            None => true,
            Some(book) => book.accepts_update(msg),
        }
    }

    /// The registered symbols with their instruments, ordered by instrument id.
    pub fn symbols_by_instrument(&self) -> (r: Vec<(String, InstrumentId)>)
        ensures
            forall|i: int, j: int| 0 <= i < j < r@.len() ==> r@[i].1 <= r@[j].1,
            registration_views(r@).to_multiset() == self@.registrations.to_multiset(),
    {
        let mut out: Vec<(String, InstrumentId)> = Vec::new();
        let ghost s = self.symbol_map@;
        proof {
            broadcast use vstd::seq_lib::group_to_multiset_ensures;

            assert(registration_views(out@) =~= registration_views(s.take(0)));
        }
        let mut k: usize = 0;
        while k < self.symbol_map.len()
            invariant
                k <= s.len(),
                s == self.symbol_map@,
                forall|i: int, j: int| 0 <= i < j < out@.len() ==> out@[i].1 <= out@[j].1,
                registration_views(out@).to_multiset() == registration_views(
                    s.take(k as int),
                ).to_multiset(),
            decreases s.len() - k,
        {
            let id = self.symbol_map[k].1;
            let name = self.symbol_map[k].0.clone();
            let mut j: usize = 0;
            while j < out.len() && out[j].1 <= id
                invariant
                    j <= out@.len(),
                    forall|m: int| 0 <= m < j ==> out@[m].1 <= id,
                decreases out@.len() - j,
            {
                j = j + 1;
            }
            let ghost before = out@;
            out.insert(j, (name, id));
            proof {
                assert forall|a: int, b: int| 0 <= a < b < out@.len() implies out@[a].1
                    <= out@[b].1 by {
                    if b < j {
                        assert(out@[a] == before[a] && out@[b] == before[b]);
                    } else if b == j {
                        assert(out@[a] == before[a]);
                    } else if a < j {
                        assert(out@[a] == before[a] && out@[b] == before[b - 1]);
                        assert(before[j as int].1 > id);
                        if j as int != b - 1 {
                            assert(before[j as int].1 <= before[b - 1].1);
                        }
                    } else if a == j {
                        assert(out@[b] == before[b - 1]);
                        assert(before[j as int].1 > id);
                        if j as int != b - 1 {
                            assert(before[j as int].1 <= before[b - 1].1);
                        }
                    } else {
                        assert(out@[a] == before[a - 1] && out@[b] == before[b - 1]);
                    }
                }
                let e = (name@, id);
                assert(registration_views(out@) =~= registration_views(before).insert(j as int, e));
                lemma_insert_to_multiset(registration_views(before), j as int, e);
                assert(registration_views(s.take(k as int + 1)) =~= registration_views(
                    s.take(k as int),
                ).push(e));
                broadcast use vstd::seq_lib::group_to_multiset_ensures;

            }
            k = k + 1;
        }
        assert(s.take(s.len() as int) =~= s);
        out
    }
}

/// An add message submits to the book of its instrument the order it describes,
/// of the message's own type, side, id, price and quantity, created at some time.
pub proof fn law_add_message_submits_its_order(
    old: ExchangeView,
    new: ExchangeView,
    msg: AddOrderMsg<Price>,
    accepted: bool,
)
    requires
        add_effect(old, new, msg, accepted),
        old.books.contains_key(msg.instrument_id),
    ensures
        exists|t: u64|
            (new.books[msg.instrument_id], accepted) == #[trigger] add_order_result(
                old.books[msg.instrument_id],
                OrderModel {
                    order_type: msg.order_type,
                    side: msg.side,
                    order_id: msg.order_id,
                    price: msg.price@,
                    initial_quantity: msg.quantity,
                    remaining_quantity: msg.quantity,
                    creation_time: t,
                },
            ),
{
    let t = choose|t: u64|
        (new.books[msg.instrument_id], accepted) == add_order_result(
            old.books[msg.instrument_id],
            #[trigger] add_msg_order(msg, t),
        );
    assert(add_msg_order(msg, t) == OrderModel {
        order_type: msg.order_type,
        side: msg.side,
        order_id: msg.order_id,
        price: msg.price@,
        initial_quantity: msg.quantity,
        remaining_quantity: msg.quantity,
        creation_time: t,
    });
}

/// Whether an add message may be processed is whether the book of its instrument
/// (if there is one) can take the order the message describes, of the message's
/// own type.
pub proof fn law_add_message_allowed(ex: ExchangeView, msg: AddOrderMsg<Price>)
    ensures
        add_msg_ok(ex, msg) == (ex.books.contains_key(msg.instrument_id) ==> add_order_ok(
            ex.books[msg.instrument_id],
            OrderModel {
                order_type: msg.order_type,
                side: msg.side,
                order_id: msg.order_id,
                price: msg.price@,
                initial_quantity: msg.quantity,
                remaining_quantity: msg.quantity,
                creation_time: 0,
            },
        )),
{
}

/// An immediate-or-cancel or market add message never leaves a resting order: the
/// book of its instrument holds no order afterwards that it did not hold before.
pub proof fn law_order_of_add_message_that_trades_at_once_never_rests(
    old: ExchangeView,
    new: ExchangeView,
    msg: AddOrderMsg<Price>,
    accepted: bool,
)
    requires
        add_effect(old, new, msg, accepted),
        old.books.contains_key(msg.instrument_id),
        book_consistent(old.books[msg.instrument_id]),
        uncrossed(old.books[msg.instrument_id]),
        msg.order_type == OrderType::Ioc || msg.order_type == OrderType::Market,
    ensures
        new.books[msg.instrument_id].orders.dom().subset_of(
            old.books[msg.instrument_id].orders.dom(),
        ),
{
    let t = choose|t: u64|
        (new.books[msg.instrument_id], accepted) == add_order_result(
            old.books[msg.instrument_id],
            #[trigger] add_msg_order(msg, t),
        );
    law_add_order(old.books[msg.instrument_id], add_msg_order(msg, t));
}

} // verus!
