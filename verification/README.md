# session_log

A personal session log: write a line, see recent entries, and keep a phone
copy in step with the PC copy.

- `src/` is the verified library. `store` holds the `entries` and `purges`
  tables and what each entry route does to them; `sync` holds the sync with
  the phone and the answers to a purge; `json` reads sync requests; `text`
  and `time` hold the id, body and time rules; `order` gives lists their
  order; `docs` adds the dark style sheet to the API documentation page;
  `laws` states what holds across the routes.
- `app/` is the HTTP service: axum routes, Postgres through sqlx, and the
  OpenAPI document. Each request reads both tables in one transaction, runs
  the library at the transaction's time, and writes the tables back.
- `tests/` runs the library on the scenarios of the routes.
