//! Market-data order book: fixed-precision prices, orders, per-symbol limit
//! order books with price-time-priority matching, and an exchange that routes
//! messages to the books.
#![allow(unused_imports)]

pub mod types;
pub mod price;
pub mod messages;
pub mod order;
pub mod trade;
pub mod order_queue;
pub mod book_model;
pub mod order_book;
pub mod clock;
pub mod exchange_order_book;
pub mod book_laws;
pub mod ring_buffer;
pub mod perf_counter;
pub mod parser;
pub mod config;
pub mod processor;
pub mod network_policy;
