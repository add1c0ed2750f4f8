# apple_specs

A crawler of Apple Taiwan product specifications whose logic is verified with Verus.

`src/` is the library. Every function there carries a contract that Verus proves:

- `text`, `dom`, `json`, `urls`, `pattern`, `digest` — plain-value pictures of what the outside
  crates compute (HTML parsing and CSS selection by `scraper`, JSON by `serde_json`, URLs by
  `url`, regular expressions by `regex`, SHA-256 by `sha2`), reached through small trusted
  wrappers, and verified text helpers.
- `apple` — link discovery, the URL boundary, product categories, lossless extraction of
  specification blocks, product names, page text, JSON-LD prices and purchase links.
- `jsonld` — prices stated by schema.org `Product` descriptions.
- `decimal` — price amounts read in the number forms that `f64` parsing accepts and kept
  exactly, as canonical decimal text, with their numeric order.
- `crawlers` — the `Discovery`, `Extraction` and `Crawler` capabilities and the Apple Taiwan
  implementation.
- `llm` — batching blocks for the model, checking its labels against the source blocks, the
  fallback records, and the retry decisions of one labelling request.
- `network` — `robots.txt` rules and the decisions of a download (retries, redirects, limits).
- `pipeline`, `product` — the crawl's decisions between downloads: admission, page budget,
  candidate order, extraction plan, where prices come from, the counting of extraction
  attempts, product assembly and job outcome.
- `web` — the HTML of the local pages and the check on state-changing requests.
- `laws` — properties of the library as a whole; other laws stand beside the functions they
  relate.

`app/` is the program around the library: the HTTP server, the SQLite store, the network and
model-server requests, and serialisation, including the strict reading of the model's reply
into annotations. It performs what the library decides.

`tests/` exercise the library with the real outside crates linked.
