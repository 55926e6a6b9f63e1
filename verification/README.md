# quota_gate

A client-side rate limiter for calls to language models. Rules cap tokens, requests, cost
and calls in flight, per model and per scope (the whole fleet, a tenant, or a user). Before
each call the limiter says whether to send it, and if not, how long to wait.

The library in `src/` is verified with Verus: every function carries a contract, and the
laws that span functions are proved under `src/laws/`.

## Quantities

There is no floating point in the library. A quantity is a decimal with nine places, held
as whole billionths: tokens, requests and dollars are `i128`, times and window widths in
seconds `i64`. Sums saturate. Comparisons against a cap allow a slack of one billionth.
A bucket is as wide as its share of the window, rounded up to a billionth of a second.

## Keys and prices

A rule counts under a key made of its place, its scope, and the names that the scope tells
apart. In the key of a user a bar or a backslash in the tenant's name has a backslash
before it, so that no two users share a key. A rule for `*` covers every model, and covers
a model named `*` once.

`estimate_cost` knows the models in `PRICES`. Anthropic's are not among them: pass a table
of your own to `estimate_cost_with`.

## Layout

- `fixed`, `decimal`, `text`: arithmetic, the notation of numbers, and texts
- `window`: the two sliding-window engines, time buckets and an exact log
- `table`, `listing`: maps by name
- `store`: the storage seam and the in-memory store
- `rules`, `json`: rules, scopes, and rules documents
- `admission`: what a decision is made of
- `limiter`, `clock`, `headers`: the limiter, its time, and back-pressure headers
- `pricing`: costs from list prices
- `laws`: what holds across calls
- `app/`: conversions from and to floating point, for callers that count in it

## What is trusted

`serde_json` parses rules documents (`json`). The standard library turns text to lowercase
(`rules`) and characters to uppercase (`headers`), and reads the system clock (`clock`).
Each of these calls stands alone in a function whose contract says what it is taken to do.
