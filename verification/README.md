# rust_bot

The core of a bot that trades short binary markets, written in Verus: what the
code does is stated in contracts, and the contracts are proved.

## What is in it

`src/` is the verified library.

| module | what it decides |
| --- | --- |
| `b3_maker` | what a resting sell order means once it is polled or cancelled, how a partly filled lot is closed, what a maker exit comes to |
| `b3_live` | which action an open position calls for, what follows each reply of the venue, and how results are applied to the positions |
| `b3_startup` | how the orders of the last run are taken up again |
| `canary` | when risk is taken off an asset, and when entries stop |
| `config` | the settings and the rules that they must meet |
| `strategy_replay` | the strategy over recorded trades |
| `capa_b`, `bbo_dump` | which recorded lines count, and the events in them |
| `backtest` | books, timelines, lots, exit policies, entry filters, metrics, features and their scores |
| `decimal`, `numeral`, `wide`, `dates`, `json`, `text`, `order` | amounts, numbers in text, wide products, the calendar, recorded lines, text, stable sorting |

`tests/` runs the library with the real outside crates linked. `app/` is ordinary
Rust around the library: files, the settings file, the venue, floating-point
statistics and reports.

## Numbers

Live amounts are decimals (`decimal::Dec`), computed by `rust_decimal`. A number in
a recorded line or in the settings (`config::Num`) is a decimal, an infinity or no
number at all: the digits of a text are kept as far as 96 bits and 28 places go, and
what is too large for them counts as infinite. The sizes of a book, the closes of
candles and the numbers of exit policies are kept that way and compared without
rounding.

What is computed from them counts in whole units: a price is a key in
ten-thousandths of a dollar, a lot a number of millionths of a share, and what a
sale brings a number of units of 1e-10 dollars. A walk down a book takes sizes in
units of 1e-15 shares, a positive one at least one of them. Ratios are kept as
counts; `app/` divides them.

## What is believed

The contracts of the functions marked `external_body` are believed, not proved.
Each wraps one call into `rust_decimal`, `chrono`, `serde_json` or `dashmap`, and
its doc comment says what is claimed of that call. In `text` one contract of the
standard library (`String::push`) is believed too.
