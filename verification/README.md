# httplib

Building blocks of a small synchronous HTTP server, verified with Verus.

* `src/http/request.rs` — request parsing (request line, headers, query, cookies).
* `src/http/response.rs` — responses and their exact wire format.
* `src/http/trie.rs`, `src/http/router.rs` — the segment trie router
  (static > parameter > catch-all) and the laws it satisfies.
* `src/http/precedence.rs` — which of many registered routes answers a path,
  and the proof that the trie answers with exactly that route.
* `src/http.rs` — server configuration, the per-line decisions taken while
  reading a request head (limits, `Content-Length`, keep-alive), and routing.
* `src/http/text.rs` — the character-level operations the rest is built on.
* `src/handlers.rs` — the handlers of the example server.
* `app/main.rs` — the example server: sockets, threads, logging.
