# trading-server

A low-latency order-matching server and the pure logic of its companion
bot service, written in Verus.

- `src/` is the verified library: the order book (price-time priority),
  the matching engine, the binary wire protocol, the write-ahead-log
  framing, cutting a connection's byte stream into frames, the decisions
  of the WebSocket and unary order transports, market-data replay
  decoding, and the bot service's rules, fee estimates, key hashing,
  template matching and simulated trades. Every function carries a
  contract and the laws the system relies on are proof functions.
- `app/` is the program around it: threads, sockets, files, clocks and
  the histogram of order latencies.
- `tests/` exercise the library on concrete values.
