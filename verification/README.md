# thermos

A small HTTP server library, verified with Verus.

- `src/` is the library, every function with a contract that Verus proves:
  - `http/request.rs` reads a request from the bytes of a stream. Reading is a
    decision on the bytes received so far (`Request::from_stream`,
    `Request::try_from_stream`): one more byte is needed, or the request or
    the error is settled. Proved: a settled decision never changes with more
    bytes, and at the end of the stream the decision is always settled.
  - `http/response.rs` writes a response as bytes (status line, headers,
    empty line, body).
  - `http/status.rs`, `http/method.rs`, `http/content_type.rs`, `http/uri.rs`
    hold the value types and their text forms.
  - `route.rs` holds the route tree: building a route, adding routes, and
    finding the handler for a path, with laws on what a search finds.
  - `route_laws.rs` states what adding a route keeps and changes, and what
    a search finds in a tree built by adding routes one after another.
  - `server.rs` answers a request with the handler its path leads to, or
    with `404 Not Found`.
  - `string_map.rs` is the string-to-string map used for headers and
    parameters. It stands in for a `HashMap<String, String>`: with `String`
    keys the verifier proves nothing of what a `HashMap` holds after an
    insert, so the map is a vector of entries whose keys are unique (its
    type invariant), with lookup, insert and remove proved against a
    sequence of entries. Entries come out in insertion order, where a
    `HashMap`'s order is unspecified; `text.rs` holds character, decimal and splitting helpers and
    the few std calls on text, each behind a stated contract.
- `app/` is the server around it: sockets, reading streams a byte at a
  time into `Request::try_from_stream`, and files.
- `tests/` runs the library on concrete values.
