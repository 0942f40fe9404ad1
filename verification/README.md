# rust-crawler

A web crawler whose decision logic is a library verified with Verus.

- `src/` is the library. Its functions carry contracts that Verus proves,
  over the library's own model of each type: URL filtering (`filter`, `config`), URL de-duplication with a
  normal form for each URL (`deduper`), robots.txt parsing and per-site
  rule caching (`robots`), HTML title, text and link extraction with a
  text-density choice of the main content (`parser`, with exact integer
  arithmetic in `bignum`), response checks and body decoding (`fetcher`), the CSV lines and
  SQLite rows that pages are stored as (`storage`),
  and the scheduling of a crawl as a state machine (`crawler`).
  Calls into the `url`, `scraper` and `encoding_rs` crates, and a few into
  the standard library, sit behind small trusted wrappers: Verus believes
  their contracts, which name what those functions compute, without proof.
- `app/` is the program: command-line options, the HTTP client, the
  concurrent fetch loop driven by the library's scheduler, writing JSON,
  CSV or SQLite output, and the progress display.
- `tests/` exercises the library on concrete inputs.

Run the crawler with, for example:

```
rust-crawler --seed https://example.com --max-depth 2 --output results
```
