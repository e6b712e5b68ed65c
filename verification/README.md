# mik_sdk

Helpers for HTTP handlers, written in Verus: each function carries a
contract that the verifier proves.

- `constants`: limits, header names, MIME types and HTTP status titles.
- `env`: environment variable lookups over `(name, value)` pairs, and a cache.
- `request::cookie`: `Cookie` header parsing and `Set-Cookie` building.
- `request::multipart`: `multipart/form-data` boundary extraction and body parsing.
- `http_client`: an outbound request builder, with URL checks (scheme,
  authority, private addresses, percent-encoding) before a sender runs.
- `json`: a lazy scanner that reads fields by path straight from the bytes,
  input checks (size, nesting depth, UTF-8, nothing but whitespace after a
  complete first value), integer readings settled from the exact decimal
  value of a number's text (`json::decimal`), and `JsonValue`, which holds
  either raw bytes or a parsed tree with a fluent builder API. Parsing goes
  through the `miniserde` parser; its value is copied into the library's own
  tree by verified code.
- `text`: byte-level text helpers shared by the parsers (search, ASCII case
  folding, Unicode whitespace trimming, UTF-8 slicing).

Laws that relate several functions are stated as `law_*` proof functions
next to the code they are about.

`app/` holds what cannot be verified: readings of JSON numbers as `f64`,
JSON text output through `miniserde` (whose float formatting is outside the
proofs), and error types with `Display`.
