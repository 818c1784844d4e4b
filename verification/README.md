# refetch-core

Deterministic, evidence-backed ranking of feed candidates under a lens,
written in Verus.

- `src/fixed6.rs`: six-decimal fixed-point numbers: exact parsing of JSON
  number text, half-away-from-zero multiplication, the shortest decimal text.
- `src/contract.rs`: the request and slate objects and their views.
- `src/text.rs`: identifier, token, signal-name and version patterns; text
  order.
- `src/external.rs`: RFC 3339 date-times and absolute URIs, decided by the
  `time` and `uriparse` crates.
- `src/validation.rs`: schema and reference checks; the first failing check
  names the error.
- `src/rank.rs`: scoring, ordering and cluster-limited selection.
- `src/laws.rs`: properties every ranking outcome has, among them that a
  request has exactly one outcome.
- `app/`: the `refetch rank --input request.json --output slate.json`
  command line and the JSON forms of the objects.
