# market_data_order_book

A limit order book for market data, verified with Verus.

- `src/` is the library: fixed-precision prices, orders, per-symbol order books
  with price-time-priority matching (resting orders and immediate-or-cancel
  orders), an exchange that routes messages to the book of each instrument, a
  bounded FIFO ring buffer, latency statistics, and the parsers for the
  market-data text lines and INI configuration text. Each book is modelled by a
  `BookView` (`src/book_model.rs`); the operations are specified against it, and
  the laws that hold across operations are proved in `src/book_laws.rs`.
- `tests/` exercises the library on concrete values.
- `app/` is the command-line driver: it reads files, turns price text into
  fixed-precision prices, feeds the messages to the exchange and prints the
  books.
