# socketing

A small verified library behind a few networking and game programs, written
in Verus.

- `src/tictactoe.rs`: the referee of a tic-tac-toe game (row winners, marks,
  moves typed as `row column`).
- `src/storage.rs`: callables filed by name and run on request.
- `src/header.rs`: reading an HTTP request header byte by byte.
- `src/line.rs`, `src/seqs.rs`, `src/text.rs`: trimming, searching, splitting
  and number parsing over request lines.
- `src/json.rs`: the JSON model the request logic uses; `serde_json` reads
  and writes the documents.
- `src/http.rs`: the routed server (`GET /`, `POST /login` with credential
  checks).
- `src/server.rs`: the plain socket server.

`app/` holds the programs themselves (terminal and socket I/O, threads, the
axum server); `tests/` exercises the library.
