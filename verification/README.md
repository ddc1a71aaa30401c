# brk_sopd

Spent and created output price distributions (SOPD / COPD) for a Bitcoin
analytics service, as a Verus-verified library.

- `src/` is the verified library:
  - `format.rs`, `raw.rs`, `le_bytes.rs`, `codec.rs`: the on-disk codec of a
    day's or a block's distribution (a header of three little-endian `u64`s,
    then pco-compressed keys and values). Writing and reading back are proved
    to give the same map.
  - `aggregation.rs`, `sopd.rs`, `collection.rs`: turning a stored
    distribution into the served buckets (supply, cost-basis value, realized
    P&L), with the laws that bucketing loses no supply, that values add up to
    within a cent per bucket, and that raw bucketing gives back the stored
    entries.
  - `date.rs`, `query.rs`, `params.rs`: UTC dates from timestamps and file
    names, the listing of available dates and block heights, and the request
    parameters.
- `app/` reads files and prices, turns amounts into dollars and bitcoin for
  JSON, and registers the HTTP routes.
- `tests/` runs the library on concrete values.
