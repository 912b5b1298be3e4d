# stract

The storage core of a web search engine, verified with Verus.

- `src/crawl_db.rs` keeps the state of a crawl. It stands on `id_table.rs` (texts and their
  identifiers), `url_state_db.rs` (the URL states of every domain), `redirect_db.rs`,
  `sample.rs` and `pending.rs` (weighted random samples), `discovery.rs` and `visits.rs` (what
  crawlers report), and `crawl_laws.rs` states what holds of a crawl as a whole.
- `src/store_writer.rs` collects the edges of a web graph and hands them out in order;
  `store_laws.rs` states what holds of them.
- `src/entity_image.rs` and `src/index_files.rs` hold small rules of the frontend and the index.

The library touches no disk. What was read is handed in before an operation, and what is due to
be written is taken out after it. `app/` does the reading and writing, serves requests, and draws
the random priorities, which are floating-point numbers.
