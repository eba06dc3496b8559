use market_data_order_book::parser::{
    parse_action, parse_add_order_tokens, parse_cancel, parse_line_fields, parse_modify_tokens,
    parse_order_type, parse_side, parse_symbol_fields, parse_u64, split_at_byte, split_first,
    LineFields,
};
use market_data_order_book::types::{Action, OrderType, Side};

#[test]
fn parse_u64_reads_whole_decimal_numbers() {
    assert_eq!(parse_u64("0"), Some(0));
    assert_eq!(parse_u64("42"), Some(42));
    assert_eq!(parse_u64("+5"), Some(5));
    assert_eq!(parse_u64("007"), Some(7));
    assert_eq!(parse_u64("18446744073709551615"), Some(u64::MAX));
}

#[test]
fn parse_u64_refuses_other_text() {
    assert_eq!(parse_u64(""), None);
    assert_eq!(parse_u64("+"), None);
    assert_eq!(parse_u64("-1"), None);
    assert_eq!(parse_u64("12a"), None);
    assert_eq!(parse_u64(" 1"), None);
    assert_eq!(parse_u64("1.5"), None);
    assert_eq!(parse_u64("18446744073709551616"), None);
}

#[test]
fn keywords_name_actions_sides_and_types() {
    assert_eq!(parse_action("BUY"), Action::Buy);
    assert_eq!(parse_action("SELL"), Action::Sell);
    assert_eq!(parse_action("CANCEL"), Action::Cancel);
    assert_eq!(parse_action("MODIFY"), Action::Modify);
    assert_eq!(parse_action("PRINT"), Action::Print);
    assert_eq!(parse_action("SYMBOL"), Action::Symbol);
    assert_eq!(parse_action("buy"), Action::Invalid);
    assert_eq!(parse_side("BUY"), Some(Side::Bid));
    assert_eq!(parse_side("SELL"), Some(Side::Ask));
    assert_eq!(parse_side("GFD"), None);
    assert_eq!(parse_order_type("GFD"), Some(OrderType::Gfd));
    assert_eq!(parse_order_type("IOC"), Some(OrderType::Ioc));
    assert_eq!(parse_order_type("FOK"), None);
}

#[test]
fn split_at_byte_cuts_at_the_first_occurrence() {
    assert_eq!(split_at_byte("a=b=c", b'='), Some(("a", "b=c")));
    assert_eq!(split_at_byte("abc", b'='), None);
    assert_eq!(split_at_byte("=x", b'='), Some(("", "x")));
}

#[test]
fn split_first_drops_leading_whitespace_of_the_rest() {
    assert_eq!(split_first("CANCEL   1 2"), Some(("CANCEL", "1 2")));
    assert_eq!(split_first("PRINT"), None);
    assert_eq!(split_first("A \t B"), Some(("A", "B")));
}

#[test]
fn cancel_fields_from_whitespace_tokens() {
    let m = parse_cancel("7  \t 99 extra").expect("cancel fields");
    assert_eq!((m.instrument_id, m.order_id), (7, 99));
    assert!(parse_cancel("7").is_none());
    assert!(parse_cancel("x 9").is_none());
}

#[test]
fn add_and_modify_tokens_keep_price_text() {
    let t = vec!["GFD", "1", "207.8", "100", "5"];
    assert_eq!(parse_add_order_tokens(&t), Some((OrderType::Gfd, 1, "207.8", 100, 5)));
    let bad = vec!["XYZ", "1", "207.8", "100", "5"];
    assert_eq!(parse_add_order_tokens(&bad), None);
    let short = vec!["IOC", "1", "207.8", "100"];
    assert_eq!(parse_add_order_tokens(&short), None);
    let m = vec!["1", "5", "SELL", "99.5", "30"];
    assert_eq!(parse_modify_tokens(&m), Some((1, 5, Side::Ask, "99.5", 30)));
    let m_bad = vec!["1", "5", "HOLD", "99.5", "30"];
    assert_eq!(parse_modify_tokens(&m_bad), None);
}

#[test]
fn symbol_fields_keep_the_rest_as_name() {
    assert_eq!(parse_symbol_fields("1 207.8 Apple Inc "), Some((1, "207.8", "Apple Inc")));
    assert_eq!(parse_symbol_fields("1 207.8"), None);
    assert_eq!(parse_symbol_fields("one 207.8 AAPL"), None);
}

#[test]
fn whole_lines_of_each_kind() {
    match parse_line_fields("SYMBOL 1 207.8 AAPL") {
        Some(LineFields::Symbol { instrument_id, price, symbol }) => {
            assert_eq!((instrument_id, price, symbol), (1, "207.8", "AAPL"));
        }
        _ => panic!("symbol line not read"),
    }
    match parse_line_fields("BUY GFD 1 100.25 10 7") {
        Some(LineFields::AddOrder { side, order_type, instrument_id, price, quantity, order_id }) => {
            assert_eq!(side, Side::Bid);
            assert_eq!(order_type, OrderType::Gfd);
            assert_eq!((instrument_id, price, quantity, order_id), (1, "100.25", 10, 7));
        }
        _ => panic!("buy line not read"),
    }
    match parse_line_fields("SELL IOC 2 99 4 8") {
        Some(LineFields::AddOrder { side, order_type, .. }) => {
            assert_eq!(side, Side::Ask);
            assert_eq!(order_type, OrderType::Ioc);
        }
        _ => panic!("sell line not read"),
    }
    match parse_line_fields("MODIFY 1 7 BUY 101 12") {
        Some(LineFields::ModifyOrder { instrument_id, order_id, side, price, quantity }) => {
            assert_eq!((instrument_id, order_id, side, price, quantity), (1, 7, Side::Bid, "101", 12));
        }
        _ => panic!("modify line not read"),
    }
    match parse_line_fields("CANCEL 1 7") {
        Some(LineFields::CancelOrder(m)) => {
            assert_eq!((m.instrument_id, m.order_id), (1, 7));
        }
        _ => panic!("cancel line not read"),
    }
    assert!(parse_line_fields("PRINT 1").is_none());
    assert!(parse_line_fields("HELLO 1 2").is_none());
    assert!(parse_line_fields("CANCEL").is_none());
    assert!(parse_line_fields("BUY GFD 1 100").is_none());
}
