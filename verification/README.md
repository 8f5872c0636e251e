# miasma

Miasma serves endless pages of poisoned training data to scrapers that
ignore the rules. This crate is written in Verus.

- `src/` is the verified library:
  - `calculate_nodes`: how many pages one crawler can be led through (the
    node count of a `k`-ary tree), with overflow detection;
  - `chunk` and `html_escaper`: HTML escaping of the poison stream, chunk by
    chunk, over `bytes::Bytes` buffers, with the laws that the escaped stream
    does not depend on chunk boundaries, holds no `<` or `>`, and decodes back
    to the input;
  - `routes`: admission under the in-flight limit (`429` with `Retry-After`),
    gzip negotiation from `Accept-Encoding`, the requested crawl depth, and
    the response headers;
  - `version_check`: whether a newer release is published.
- `app/` is the server around it: configuration, listeners, the axum router,
  the HTTP fetch of the poison, gzip compression of the body, and the
  crates.io request.
- `tests/` runs the library on concrete inputs.
