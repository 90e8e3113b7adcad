# docs_scraper

A crawler for documentation sites that turns pages into DocSearch-style
search records and uploads them to Meilisearch.

- `src/` is the library, verified with Verus:
  - `config.rs`: configuration, selectors, page-rank rules;
  - `extract.rs`: page extraction into records (heading path, content
    records, object ids);
  - `crawl.rs`: the crawl frontier, fetched-page handling, sitemap expansion;
  - `sink.rs`: upload planning (deletion filters, batches, index check);
  - `model.rs`: the records;
  - `text.rs`: whitespace, digits, hex and other character-level helpers;
  - `dom.rs`, `web.rs`, `digest.rs`: HTML parsing and CSS selectors
    (`scraper`), URLs (`url`) and SHA-256 (`sha2`).
- `app/` is the program: configuration file, HTTP fetching, the concurrent
  crawl loop, sitemap XML and the Meilisearch client.
- `tests/` exercises the library.
