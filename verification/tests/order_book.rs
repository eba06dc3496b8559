use market_data_order_book::messages::{ModifyOrderMsg, Price};
use market_data_order_book::order::new_order_ptr;
use market_data_order_book::order_book::OrderBook;
use market_data_order_book::types::{OrderType, Side};

fn px(raw: u64) -> Price {
    Price::from_raw(raw)
}

fn gfd(side: Side, id: u64, price: u64, qty: u64) -> market_data_order_book::order::Order {
    new_order_ptr(OrderType::Gfd, side, id, px(price), qty, 0)
}

fn ioc(side: Side, id: u64, price: u64, qty: u64) -> market_data_order_book::order::Order {
    new_order_ptr(OrderType::Ioc, side, id, px(price), qty, 0)
}

fn trade_tuple(book: &OrderBook, i: usize) -> (u64, u64, u64, u64, u64, u64) {
    let t = &book.trades[i];
    (
        t.bid_side.order_id,
        t.bid_side.price.raw_value(),
        t.bid_side.quantity,
        t.ask_side.order_id,
        t.ask_side.price.raw_value(),
        t.ask_side.quantity,
    )
}

#[test]
fn new_book_is_empty() {
    let book = OrderBook::new(String::from("AAPL"));
    assert!(book.is_empty());
    assert_eq!(book.symbol(), "AAPL");
    assert!(book.best_bid().is_none());
    assert!(book.best_ask().is_none());
    assert_eq!(book.volume_at_price(px(100), Side::Bid), 0);
    assert!(book.trades.is_empty());
}

#[test]
fn non_crossing_orders_rest() {
    let mut book = OrderBook::new(String::from("AAPL"));
    assert!(book.add_order(&mut gfd(Side::Bid, 1, 100, 10)));
    assert!(book.add_order(&mut gfd(Side::Bid, 2, 100, 5)));
    assert!(book.add_order(&mut gfd(Side::Ask, 3, 101, 7)));
    assert!(!book.is_empty());
    assert_eq!(book.best_bid().unwrap().raw_value(), 100);
    assert_eq!(book.best_ask().unwrap().raw_value(), 101);
    assert_eq!(book.volume_at_price(px(100), Side::Bid), 15);
    assert_eq!(book.volume_at_price(px(101), Side::Ask), 7);
    assert_eq!(book.volume_at_price(px(101), Side::Bid), 0);
    assert_eq!(book.volume_at_price(px(100), Side::Invalid), 0);
    let (p, v) = book.best_bid_with_volume().unwrap();
    assert_eq!((p.raw_value(), v), (100, 15));
    let (p, v) = book.best_ask_with_volume().unwrap();
    assert_eq!((p.raw_value(), v), (101, 7));
    assert!(book.trades.is_empty());
}

#[test]
fn crossing_order_trades_with_front_of_best_level() {
    let mut book = OrderBook::new(String::from("AAPL"));
    assert!(book.add_order(&mut gfd(Side::Ask, 1, 100, 10)));
    assert!(book.add_order(&mut gfd(Side::Bid, 2, 101, 4)));
    assert_eq!(book.trades.len(), 1);
    assert_eq!(trade_tuple(&book, 0), (2, 101, 4, 1, 100, 4));
    assert!(book.best_bid().is_none());
    assert_eq!(book.best_ask().unwrap().raw_value(), 100);
    assert_eq!(book.volume_at_price(px(100), Side::Ask), 6);
}

#[test]
fn price_then_time_priority() {
    let mut book = OrderBook::new(String::from("AAPL"));
    assert!(book.add_order(&mut gfd(Side::Ask, 1, 100, 5)));
    assert!(book.add_order(&mut gfd(Side::Ask, 2, 100, 5)));
    assert!(book.add_order(&mut gfd(Side::Ask, 3, 99, 5)));
    assert!(book.add_order(&mut gfd(Side::Bid, 4, 100, 12)));
    assert_eq!(book.trades.len(), 3);
    assert_eq!(trade_tuple(&book, 0), (4, 100, 5, 3, 99, 5));
    assert_eq!(trade_tuple(&book, 1), (4, 100, 5, 1, 100, 5));
    assert_eq!(trade_tuple(&book, 2), (4, 100, 2, 2, 100, 2));
    assert!(book.best_bid().is_none());
    assert_eq!(book.volume_at_price(px(100), Side::Ask), 3);
    assert_eq!(book.volume_at_price(px(99), Side::Ask), 0);
}

#[test]
fn earlier_id_is_matched_first_even_if_added_later() {
    let mut book = OrderBook::new(String::from("AAPL"));
    assert!(book.add_order(&mut gfd(Side::Ask, 9, 100, 5)));
    assert!(book.add_order(&mut gfd(Side::Ask, 7, 100, 5)));
    assert!(book.add_order(&mut gfd(Side::Bid, 10, 100, 5)));
    assert_eq!(trade_tuple(&book, 0), (10, 100, 5, 7, 100, 5));
    assert_eq!(book.volume_at_price(px(100), Side::Ask), 5);
}

#[test]
fn ioc_fills_what_it_can_and_never_rests() {
    let mut book = OrderBook::new(String::from("AAPL"));
    assert!(book.add_order(&mut gfd(Side::Ask, 1, 100, 5)));
    assert!(book.add_order(&mut ioc(Side::Bid, 2, 100, 8)));
    assert_eq!(book.trades.len(), 1);
    assert_eq!(trade_tuple(&book, 0), (2, 100, 5, 1, 100, 5));
    assert!(book.is_empty());
    assert!(book.best_bid().is_none());
    // The cancelled remainder of the IOC order is gone: cancelling it fails.
    assert!(!book.cancel_order(2));
}

#[test]
fn ioc_partial_fill_reduces_resting_volume() {
    let mut book = OrderBook::new(String::from("AAPL"));
    assert!(book.add_order(&mut gfd(Side::Ask, 1, 100, 10)));
    assert!(book.add_order(&mut ioc(Side::Bid, 2, 105, 3)));
    assert_eq!(trade_tuple(&book, 0), (2, 105, 3, 1, 100, 3));
    assert_eq!(book.volume_at_price(px(100), Side::Ask), 7);
    assert_eq!(book.best_ask().unwrap().raw_value(), 100);
}

#[test]
fn ioc_ask_trades_against_best_bids() {
    let mut book = OrderBook::new(String::from("AAPL"));
    assert!(book.add_order(&mut gfd(Side::Bid, 1, 100, 2)));
    assert!(book.add_order(&mut gfd(Side::Bid, 2, 98, 4)));
    assert!(book.add_order(&mut ioc(Side::Ask, 3, 99, 5)));
    // Only the bid at 100 reaches the IOC limit of 99.
    assert_eq!(book.trades.len(), 1);
    assert_eq!(trade_tuple(&book, 0), (1, 100, 2, 3, 99, 2));
    assert_eq!(book.best_bid().unwrap().raw_value(), 98);
    assert_eq!(book.volume_at_price(px(98), Side::Bid), 4);
}

#[test]
fn ioc_without_match_is_refused() {
    let mut book = OrderBook::new(String::from("AAPL"));
    assert!(!book.add_order(&mut ioc(Side::Bid, 1, 100, 5)));
    assert!(book.add_order(&mut gfd(Side::Ask, 2, 101, 5)));
    assert!(!book.add_order(&mut ioc(Side::Bid, 3, 100, 5)));
    assert!(book.trades.is_empty());
    assert_eq!(book.volume_at_price(px(101), Side::Ask), 5);
}

#[test]
fn duplicate_id_and_invalid_side_are_refused() {
    let mut book = OrderBook::new(String::from("AAPL"));
    assert!(book.add_order(&mut gfd(Side::Bid, 1, 100, 10)));
    assert!(!book.add_order(&mut gfd(Side::Ask, 1, 120, 10)));
    assert!(!book.add_order(&mut gfd(Side::Invalid, 2, 100, 10)));
    assert_eq!(book.volume_at_price(px(100), Side::Bid), 10);
    assert!(book.best_ask().is_none());
}

#[test]
fn market_orders_fill_at_the_top_of_the_book() {
    let mut book = OrderBook::new(String::from("AAPL"));
    let mut lone = new_order_ptr(OrderType::Market, Side::Bid, 1, px(0), 3, 0);
    assert!(!book.add_order(&mut lone));
    assert_eq!(lone.remaining_quantity(), 3);
    assert!(book.is_empty());

    assert!(book.add_order(&mut gfd(Side::Ask, 2, 100, 2)));
    assert!(book.add_order(&mut gfd(Side::Ask, 3, 105, 2)));
    let mut m = new_order_ptr(OrderType::Market, Side::Bid, 4, px(0), 5, 0);
    assert!(book.add_order(&mut m));
    assert_eq!(book.trades.len(), 2);
    assert_eq!(trade_tuple(&book, 0), (4, 100, 2, 2, 100, 2));
    assert_eq!(trade_tuple(&book, 1), (4, 105, 2, 3, 105, 2));
    assert_eq!(m.remaining_quantity(), 1);
    assert!(book.is_empty());
    assert_eq!(book.volume_at_price(px(0), Side::Bid), 0);

    assert!(book.add_order(&mut gfd(Side::Bid, 5, 99, 4)));
    let mut s = new_order_ptr(OrderType::Market, Side::Ask, 6, px(0), 1, 0);
    assert!(book.add_order(&mut s));
    assert_eq!(trade_tuple(&book, 2), (5, 99, 1, 6, 99, 1));
    assert!(s.is_filled());
    assert_eq!(book.volume_at_price(px(99), Side::Bid), 3);
}

#[test]
fn cancel_removes_order_and_empty_level() {
    let mut book = OrderBook::new(String::from("AAPL"));
    assert!(book.add_order(&mut gfd(Side::Bid, 1, 100, 10)));
    assert!(book.add_order(&mut gfd(Side::Bid, 2, 100, 5)));
    assert!(book.cancel_order(1));
    assert_eq!(book.volume_at_price(px(100), Side::Bid), 5);
    assert!(!book.cancel_order(1));
    assert!(book.cancel_order(2));
    assert!(book.best_bid().is_none());
    assert!(book.is_empty());
    assert!(!book.cancel_order(42));
}

#[test]
fn cancel_after_partial_fill_takes_the_rest_out() {
    let mut book = OrderBook::new(String::from("AAPL"));
    assert!(book.add_order(&mut gfd(Side::Ask, 1, 100, 10)));
    assert!(book.add_order(&mut gfd(Side::Bid, 2, 100, 4)));
    assert_eq!(book.volume_at_price(px(100), Side::Ask), 6);
    assert!(book.cancel_order(1));
    assert!(book.best_ask().is_none());
    assert_eq!(book.volume_at_price(px(100), Side::Ask), 0);
}

#[test]
fn cancel_undoes_a_non_crossing_add() {
    let mut book = OrderBook::new(String::from("AAPL"));
    assert!(book.add_order(&mut gfd(Side::Bid, 1, 100, 10)));
    assert!(book.add_order(&mut gfd(Side::Ask, 2, 102, 10)));
    let before = book.depth();
    assert!(book.add_order(&mut gfd(Side::Bid, 3, 101, 7)));
    assert!(book.trades.is_empty());
    assert!(book.cancel_order(3));
    let after = book.depth();
    let flat = |d: &(Vec<(Price, u64)>, Vec<(Price, u64)>)| -> (Vec<(u64, u64)>, Vec<(u64, u64)>) {
        (
            d.0.iter().map(|(p, v)| (p.raw_value(), *v)).collect(),
            d.1.iter().map(|(p, v)| (p.raw_value(), *v)).collect(),
        )
    };
    assert_eq!(flat(&before), flat(&after));
}

#[test]
fn update_order_keeps_type_and_moves_order() {
    let mut book = OrderBook::new(String::from("AAPL"));
    assert!(book.add_order(&mut gfd(Side::Bid, 1, 100, 10)));
    assert!(book.add_order(&mut gfd(Side::Ask, 2, 105, 10)));
    let modify = ModifyOrderMsg {
        order_id: 1,
        instrument_id: 0,
        price: px(105),
        side: Side::Bid,
        quantity: 4,
        update_time_ns: 0,
    };
    assert!(book.update_order(&modify));
    assert_eq!(book.trades.len(), 1);
    assert_eq!(trade_tuple(&book, 0), (1, 105, 4, 2, 105, 4));
    assert_eq!(book.volume_at_price(px(100), Side::Bid), 0);
    assert_eq!(book.volume_at_price(px(105), Side::Ask), 6);
    let missing = ModifyOrderMsg {
        order_id: 77,
        instrument_id: 0,
        price: px(105),
        side: Side::Bid,
        quantity: 4,
        update_time_ns: 0,
    };
    assert!(!book.update_order(&missing));
}

#[test]
fn update_to_invalid_side_removes_order() {
    let mut book = OrderBook::new(String::from("AAPL"));
    assert!(book.add_order(&mut gfd(Side::Bid, 1, 100, 10)));
    let modify = ModifyOrderMsg {
        order_id: 1,
        instrument_id: 0,
        price: px(100),
        side: Side::Invalid,
        quantity: 10,
        update_time_ns: 0,
    };
    assert!(!book.update_order(&modify));
    assert!(book.is_empty());
}

#[test]
fn depth_lists_bids_down_and_asks_up() {
    let mut book = OrderBook::new(String::from("AAPL"));
    assert!(book.add_order(&mut gfd(Side::Bid, 1, 98, 1)));
    assert!(book.add_order(&mut gfd(Side::Bid, 2, 99, 2)));
    assert!(book.add_order(&mut gfd(Side::Bid, 3, 99, 3)));
    assert!(book.add_order(&mut gfd(Side::Ask, 4, 102, 4)));
    assert!(book.add_order(&mut gfd(Side::Ask, 5, 101, 5)));
    let (bids, asks) = book.depth();
    let bids: Vec<(u64, u64)> = bids.iter().map(|(p, v)| (p.raw_value(), *v)).collect();
    let asks: Vec<(u64, u64)> = asks.iter().map(|(p, v)| (p.raw_value(), *v)).collect();
    assert_eq!(bids, vec![(99, 5), (98, 1)]);
    assert_eq!(asks, vec![(101, 5), (102, 4)]);
}

#[test]
fn accepts_refuses_zero_quantity_resting_orders() {
    let book = OrderBook::new(String::from("AAPL"));
    assert!(!book.accepts(&gfd(Side::Bid, 1, 100, 0)));
    assert!(book.accepts(&gfd(Side::Bid, 1, 100, 1)));
    assert!(book.accepts(&ioc(Side::Bid, 1, 100, 0)));
}

#[test]
fn accepts_refuses_volume_overflow() {
    let mut book = OrderBook::new(String::from("AAPL"));
    assert!(book.add_order(&mut gfd(Side::Bid, 1, 100, u64::MAX - 1)));
    assert!(book.accepts(&gfd(Side::Bid, 2, 100, 1)));
    assert!(!book.accepts(&gfd(Side::Bid, 2, 100, 2)));
    assert!(book.accepts(&gfd(Side::Bid, 2, 99, 2)));
}

#[test]
fn book_never_rests_crossed() {
    let mut book = OrderBook::new(String::from("AAPL"));
    let orders = [
        gfd(Side::Bid, 1, 100, 3),
        gfd(Side::Ask, 2, 99, 1),
        gfd(Side::Ask, 3, 101, 2),
        gfd(Side::Bid, 4, 102, 5),
        gfd(Side::Ask, 5, 98, 9),
        gfd(Side::Bid, 6, 97, 4),
    ];
    for mut o in orders {
        book.add_order(&mut o);
        if let (Some(b), Some(a)) = (book.best_bid(), book.best_ask()) {
            assert!(b.raw_value() < a.raw_value());
        }
    }
    for t in &book.trades {
        assert!(t.bid_side.price.raw_value() >= t.ask_side.price.raw_value());
        assert_eq!(t.bid_side.quantity, t.ask_side.quantity);
        assert!(t.bid_side.quantity > 0);
    }
}

#[test]
fn the_callers_ioc_order_shows_its_fills() {
    let mut book = OrderBook::new(String::from("S"));
    assert!(book.add_order(&mut gfd(Side::Ask, 1, 100, 5)));
    assert!(book.add_order(&mut gfd(Side::Ask, 2, 101, 5)));
    assert!(book.add_order(&mut gfd(Side::Ask, 3, 102, 5)));
    let mut x = ioc(Side::Bid, 4, 101, 12);
    assert!(book.add_order(&mut x));
    assert_eq!(book.trades.len(), 2);
    assert_eq!(trade_tuple(&book, 0), (4, 101, 5, 1, 100, 5));
    assert_eq!(trade_tuple(&book, 1), (4, 101, 5, 2, 101, 5));
    assert_eq!(x.remaining_quantity(), 2);
    assert_eq!(x.filled_quantity(), 10);
    assert_eq!(book.best_ask().map(|p| p.raw_value()), Some(102));
}

#[test]
fn the_callers_resting_order_shows_its_fills() {
    let mut book = OrderBook::new(String::from("S"));
    assert!(book.add_order(&mut gfd(Side::Ask, 1, 100, 3)));
    let mut bid = gfd(Side::Bid, 2, 100, 5);
    assert!(book.add_order(&mut bid));
    assert_eq!(bid.remaining_quantity(), 2);
    let mut ask = gfd(Side::Ask, 3, 99, 4);
    assert!(book.add_order(&mut ask));
    assert_eq!(ask.remaining_quantity(), 2);
    let mut refused = gfd(Side::Ask, 3, 99, 4);
    assert!(!book.add_order(&mut refused));
    assert_eq!(refused.remaining_quantity(), 4);
    let mut filled = gfd(Side::Bid, 5, 99, 2);
    assert!(book.add_order(&mut filled));
    assert!(filled.is_filled());
    assert_eq!(book.volume_at_price(px(99), Side::Ask), 0);
}
