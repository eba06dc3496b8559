use market_data_order_book::exchange_order_book::ExchangeOrderBook;
use market_data_order_book::messages::{
    AddOrderMsg, CancelOrderMsg, CoreMessage, ModifyOrderMsg, Packet, Price, SymbolMsg,
};
use market_data_order_book::perf_counter::PerfCounter;
use market_data_order_book::processor::{process_message, process_packet};
use market_data_order_book::types::{OrderType, Side};

fn symbol(name: &str, id: u64) -> SymbolMsg<Price> {
    SymbolMsg { symbol: String::from(name), instrument_id: id, last_price: Price::from_raw(0) }
}

fn add(inst: u64, id: u64, side: Side, price: u64, qty: u64) -> AddOrderMsg<Price> {
    AddOrderMsg {
        instrument_id: inst,
        order_id: id,
        price: Price::from_raw(price),
        quantity: qty,
        side,
        order_type: OrderType::Gfd,
        update_time_ns: 0,
    }
}

#[test]
fn symbols_name_their_instruments() {
    let mut ex = ExchangeOrderBook::new(String::from("X"));
    ex.add_update_symbol(&symbol("AAPL", 1));
    ex.add_update_symbol(&symbol("MSFT", 2));
    assert_eq!(ex.instrument_of("AAPL"), Some(1));
    assert_eq!(ex.instrument_of("MSFT"), Some(2));
    assert_eq!(ex.instrument_of("GOOG"), None);
    assert_eq!(ex.book(1).unwrap().symbol(), "AAPL");
    assert!(ex.book(3).is_none());
    ex.add_update_symbol(&symbol("AAPL", 5));
    assert_eq!(ex.instrument_of("AAPL"), Some(5));
}

#[test]
fn orders_route_to_their_instrument() {
    let mut ex = ExchangeOrderBook::new(String::from("X"));
    ex.add_update_symbol(&symbol("AAPL", 1));
    ex.add_update_symbol(&symbol("MSFT", 2));
    assert!(ex.add_new_order(&add(1, 10, Side::Bid, 100, 5)));
    assert!(ex.add_new_order(&add(2, 11, Side::Ask, 200, 7)));
    assert!(!ex.add_new_order(&add(3, 12, Side::Ask, 200, 7)));
    assert_eq!(ex.book(1).unwrap().volume_at_price(Price::from_raw(100), Side::Bid), 5);
    assert_eq!(ex.book(2).unwrap().volume_at_price(Price::from_raw(200), Side::Ask), 7);
    assert_eq!(ex.book(1).unwrap().volume_at_price(Price::from_raw(200), Side::Ask), 0);
    assert!(ex.add_new_order(&add(1, 13, Side::Ask, 100, 2)));
    assert_eq!(ex.book(1).unwrap().trades.len(), 1);
    assert_eq!(ex.book(1).unwrap().volume_at_price(Price::from_raw(100), Side::Bid), 3);
}

#[test]
fn cancel_and_modify_through_the_exchange() {
    let mut ex = ExchangeOrderBook::new(String::from("X"));
    ex.add_update_symbol(&symbol("AAPL", 1));
    assert!(ex.add_new_order(&add(1, 10, Side::Bid, 100, 5)));
    let modify = ModifyOrderMsg {
        order_id: 10,
        instrument_id: 1,
        price: Price::from_raw(101),
        side: Side::Bid,
        quantity: 8,
        update_time_ns: 3,
    };
    assert!(ex.update_order_allowed(&modify));
    assert!(ex.update_order(&modify));
    assert_eq!(ex.book(1).unwrap().volume_at_price(Price::from_raw(101), Side::Bid), 8);
    assert_eq!(ex.book(1).unwrap().volume_at_price(Price::from_raw(100), Side::Bid), 0);
    assert!(!ex.cancel_order(&CancelOrderMsg { order_id: 10, instrument_id: 2 }));
    assert!(ex.cancel_order(&CancelOrderMsg { order_id: 10, instrument_id: 1 }));
    assert!(ex.book(1).unwrap().is_empty());
    assert!(!ex.cancel_order(&CancelOrderMsg { order_id: 10, instrument_id: 1 }));
}

#[test]
fn re_registering_a_symbol_starts_a_fresh_book() {
    let mut ex = ExchangeOrderBook::new(String::from("X"));
    ex.add_update_symbol(&symbol("AAPL", 1));
    assert!(ex.add_new_order(&add(1, 10, Side::Bid, 100, 5)));
    ex.add_update_symbol(&symbol("AAPL", 1));
    assert!(ex.book(1).unwrap().is_empty());
}

#[test]
fn add_permission_reflects_book_state() {
    let mut ex = ExchangeOrderBook::new(String::from("X"));
    ex.add_update_symbol(&symbol("AAPL", 1));
    assert!(ex.add_new_order_allowed(&add(1, 10, Side::Bid, 100, 5)));
    assert!(!ex.add_new_order_allowed(&add(1, 10, Side::Bid, 100, 0)));
    assert!(ex.add_new_order_allowed(&add(9, 10, Side::Bid, 100, 0)));
}

#[test]
fn messages_are_routed_by_kind() {
    let mut ex = ExchangeOrderBook::new(String::from("X"));
    let msgs = vec![
        CoreMessage::Symbol(symbol("AAPL", 1)),
        CoreMessage::AddOrder(add(1, 10, Side::Bid, 100, 5)),
        CoreMessage::AddOrder(add(1, 11, Side::Ask, 100, 2)),
        CoreMessage::CancelOrder(CancelOrderMsg { order_id: 10, instrument_id: 1 }),
        CoreMessage::CancelOrder(CancelOrderMsg { order_id: 10, instrument_id: 1 }),
    ];
    let mut results = Vec::new();
    for m in &msgs {
        assert!(ex.message_allowed(m));
        results.push(ex.process_message(m));
    }
    assert_eq!(results, vec![true, true, true, true, false]);
    let book = ex.book(1).unwrap();
    assert_eq!(book.trades.len(), 1);
    assert!(book.is_empty());
}

#[test]
fn a_duplicate_id_is_allowed_and_refused_by_the_book() {
    let mut ex = ExchangeOrderBook::new(String::from("X"));
    ex.add_update_symbol(&symbol("AAPL", 1));
    assert!(ex.add_new_order(&add(1, 10, Side::Bid, 100, 5)));
    let dup = CoreMessage::AddOrder(add(1, 10, Side::Bid, 90, 1));
    assert!(ex.message_allowed(&dup));
    assert!(!ex.process_message(&dup));
    assert_eq!(ex.book(1).unwrap().volume_at_price(Price::from_raw(90), Side::Bid), 0);
    assert!(!ex.message_allowed(&CoreMessage::AddOrder(add(1, 12, Side::Bid, 90, 0))));
}

#[test]
fn symbols_listed_by_instrument_id() {
    let mut ex = ExchangeOrderBook::new(String::from("X"));
    ex.add_update_symbol(&symbol("MSFT", 3));
    ex.add_update_symbol(&symbol("AAPL", 1));
    ex.add_update_symbol(&symbol("GOOG", 2));
    let listed = ex.symbols_by_instrument();
    let ids: Vec<u64> = listed.iter().map(|e| e.1).collect();
    let names: Vec<&str> = listed.iter().map(|e| e.0.as_str()).collect();
    assert_eq!(ids, vec![1, 2, 3]);
    assert_eq!(names, vec!["AAPL", "GOOG", "MSFT"]);
}

#[test]
fn processing_times_order_operations_when_counting() {
    let mut ex = ExchangeOrderBook::new(String::from("X"));
    let mut perf = Some(PerfCounter::new(String::from("perf.csv")));
    assert!(process_message(CoreMessage::Symbol(symbol("AAPL", 1)), &mut ex, &mut perf));
    assert!(process_message(CoreMessage::AddOrder(add(1, 10, Side::Bid, 100, 5)), &mut ex, &mut perf));
    assert!(process_message(CoreMessage::AddOrder(add(1, 11, Side::Bid, 99, 5)), &mut ex, &mut perf));
    let modify = ModifyOrderMsg {
        order_id: 11,
        instrument_id: 1,
        price: Price::from_raw(98),
        side: Side::Bid,
        quantity: 4,
        update_time_ns: 0,
    };
    assert!(process_message(CoreMessage::ModifyOrder(modify), &mut ex, &mut perf));
    assert!(!process_message(
        CoreMessage::CancelOrder(CancelOrderMsg { order_id: 99, instrument_id: 1 }),
        &mut ex,
        &mut perf
    ));
    let p = perf.as_ref().unwrap();
    assert_eq!(p.add_samples().len(), 2);
    assert_eq!(p.update_samples().len(), 1);
    assert_eq!(p.cancel_samples().len(), 1);
    assert_eq!(ex.book(1).unwrap().volume_at_price(Price::from_raw(98), Side::Bid), 4);

    let mut none: Option<PerfCounter> = None;
    assert!(process_message(
        CoreMessage::CancelOrder(CancelOrderMsg { order_id: 10, instrument_id: 1 }),
        &mut ex,
        &mut none
    ));
    assert!(none.is_none());
    assert_eq!(ex.book(1).unwrap().volume_at_price(Price::from_raw(100), Side::Bid), 0);
}

#[test]
fn a_packet_is_routed_in_order_skipping_what_cannot_be_taken() {
    let mut ex = ExchangeOrderBook::new(String::from("X"));
    let mut perf = Some(PerfCounter::new(String::from("perf.csv")));
    let packet = Packet {
        messages: vec![
            CoreMessage::Symbol(symbol("AAPL", 1)),
            CoreMessage::AddOrder(add(1, 10, Side::Bid, 100, 5)),
            CoreMessage::AddOrder(add(1, 11, Side::Bid, 100, 0)),
            CoreMessage::AddOrder(add(1, 12, Side::Ask, 100, 2)),
            CoreMessage::CancelOrder(CancelOrderMsg { order_id: 12, instrument_id: 1 }),
        ],
    };
    let oks = process_packet(packet, &mut ex, &mut perf);
    assert_eq!(oks, vec![true, true, false, true, false]);
    let p = perf.as_ref().unwrap();
    assert_eq!(p.add_samples().len(), 2);
    assert_eq!(p.cancel_samples().len(), 1);
    assert_eq!(ex.book(1).unwrap().volume_at_price(Price::from_raw(100), Side::Bid), 3);
}
