# agent_usage

What an editor's agent has cost: which models its threads used, how many tokens
they took, and what that comes to at each model's rate.

- `src/` is the library. Its functions are verified with Verus, but for the few
  that only call outside code (see below).
  - `model_rate_table`, `rate`, `rate_map`, `text`, `json`: what a model charges,
    read from the user's settings, the providers and a public price document.
  - `price_source`: when that document is fetched, and which copy of it counts.
  - `usage_summary`, `group_index`, `calendar`: threads folded into per-model spend.
  - `usage_dashboard`, `decimal`: the page that the reader sees.
  - `binary64`, `rounding`: IEEE 754 arithmetic on the bits of a number.
  - `laws`: what holds of the library as a whole.
- `tests/` runs the library, and holds its arithmetic and its text against the
  machine's own.
- `app/` is the editor's side: windows, settings, files, requests and the clock.

Outside code is called through a few trusted declarations, whose contracts are
believed without proof. Each has a comment that says what is claimed of it:
`serde_json` for JSON, `chrono` for the calendar, and the standard library for
strings and the system's clock.
