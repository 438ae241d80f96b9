# hl_oracle

A local reconstruction of Hyperliquid's spot oracle, verified with Verus, and programs
around it: one that prints the reconstructed oracle as JSON Lines, one that compares it on
a terminal against the oracle that Hyperliquid publishes, and a minimal example of both
prices side by side.

The library takes top-of-book data from Binance (weight 3), OKX and Bybit (2 each), and
Kraken, KuCoin, Gate, MEXC and Hyperliquid spot (1 each), takes the mid of each valid
book, and computes the weighted median of those that are fresh.

## Layout

- `src/`: the library. Every function has a contract that Verus proves.
  - `float/`: doubles held by their bits, with correctly rounded arithmetic, and decimal
    texts read as the nearest double.
  - `config`, `sources`: which coins are priced, and what is sent to each venue.
  - `messages`, `mexc`, `protobuf`, `price`, `timestamp`: what the venues send.
  - `session`: what a reader does after each event, with a capped exponential backoff.
  - `oracle`, `feed`, `output`: the books, the weighted median, and the lines of output.
  - `lead_lag`, `monitor`, `table`, `chart`: the monitor's measurements and texts.
  - `ws`: where a connection goes.
- `tests/`: the library on concrete values.
- `app/`: sockets, clocks, JSON, logarithms, number formatting and the terminal.

## What is trusted

Calls into `prost`, `kanal`, `url` and a few functions of the standard library stand
behind declarations whose doc comments say what is believed of them. Everything else in
`src/` is proved.

## Lead and lag

For each pair of consecutive moves of the published oracle, its log return is correlated
with the local return over the same interval moved back by a candidate lag, from -3 s to
6 s in steps of 100 ms over five minutes. Warm-up is timed: the estimate counts once the
oracle's history spans two minutes. A lag is confirmed when its correlation is at least
0.30, gains at least 0.05 over no lag, and three estimates in a row agree in its sign;
until then it is shown as inconclusive.
