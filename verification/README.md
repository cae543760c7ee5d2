# weather_paper

A paper-trading engine for daily temperature markets, written and verified in
Verus. It mints complete sets of an event on paper, sells what the real order
books take above cost, holds the rest as tail legs and settles them when the
event resolves. It never sends a transaction or an order.

Amounts (dollars, shares, prices, rates) are 64-bit fixed-point numbers that count
billionths: `1_000_000_000` is one. Arithmetic is exact, is cut off towards zero
below a billionth, and saturates at the ends of the range. Decimal text is read
in the notation that Rust accepts for floating-point numbers; a number past the
range counts as the end of it. The imputed cost of a share, one over the
number of buckets, is rounded up, so that nothing is sold below it.

| Module | What it holds |
|---|---|
| `amount` | fixed-point arithmetic |
| `text`, `decimal`, `dates` | reading and writing text, numbers and dates |
| `book` | order books: walking the bids, simulating a maker ask |
| `event` | weather events and their buckets |
| `account` | the account and its figures |
| `log` | what is recorded, and how a row is written |
| `engine` | one cycle: admission, mint, sale, booking; marking to market |
| `settle` | paying out resolved events |
| `replay` | picking and building the events of a replay |
| `laws` | what holds of the library as a whole: of books, cycles, settlements, dates, replays, and of any history of cycles and rounds |

A log row has five columns between bars:
`timestamp_unix|event_slug|kind|detail_json|bankroll_after`.

`app/` is the replay program around the library: configuration, network and the
log file.

What comes from other crates is called through a few functions whose contracts are
taken on trust; each says so in its doc comment: calendar dates and RFC 3339
(`dates`), JSON lists of strings (`settle`), hexadecimal (`replay`) and 256-bit
numbers in decimal (`event`).
