# jde_health

The data logic of a health dashboard for JDE environments, verified with Verus.

Monitoring files in an object-storage bucket hold health checks per customer
environment. The library decides which files to read, what their names mean,
which checks failed, how environments group by customer, how the history of an
environment splits its failures into known and new ones, and how the dashboard
counts down to its next refresh.

Layout:

- `src/` — the verified library
  - `text.rs`: string helpers (trim, prefix/suffix, split, join, order of strings)
  - `sorting.rs`: a verified stable insertion sort and what "stable sort" means
  - `model.rs`: the data types
  - `filenames.rs`: what monitoring and history file names mean
  - `health.rs`: failed checks, check keys, counts, known and new failures
  - `grouping.rs`: grouping by customer and the customer chart
  - `listing.rs`: bucket listing, file selection, addresses of files
  - `dashboard.rs`: refresh countdown, ordering of checks, navigation
  - `laws.rs`: properties that span several functions
- `tests/` — tests on concrete values
- `app/` — the browser front end (HTTP, JSON, Leptos views) around the library
