# blazingly-wire

Framework-independent HTTP/1 parsing, framing, and response encoding, verified
with [Verus](https://github.com/verus-lang/verus).

The library owns no socket runtime. It takes bytes that were already read and
tells what they mean; it writes bytes that are then sent however the caller
likes. Requests are split by [`httparse`](https://crates.io/crates/httparse).

## Layout

- `src/scan.rs`, `src/head.rs`, `src/position.rs`, `src/method.rs`: request heads;
- `src/frame.rs`, `src/chunk.rs`, `src/stream.rs`: chunked bodies, collected or
  handed out piece by piece;
- `src/response.rs`, `src/upgrade.rs`, `src/status.rs`, `src/line.rs`: response
  heads;
- `src/bytes.rs`, `src/text.rs`, `src/number.rs`, `src/field.rs`: bytes, text,
  numbers, and header syntax;
- `src/limits.rs`, `src/error.rs`: limits and errors;
- `tests/`: tests against the compiled library;
- `app/`: error traits and a synchronous server around the library.

## What is trusted

Two functions call code that is not verified: `text::utf8_text` calls
`std::str::from_utf8`, and `scan::scan_request` calls `httparse::Request::parse`.
Their doc comments say what is taken for granted.
