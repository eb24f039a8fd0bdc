# optiq

The verified core of the OptiQ query-plan and storage-design backend.

`src/` (verified with Verus):

- `wok::wokcore::coop` — a learned index behind a bounded write buffer that
  flushes when a write would overflow it.
- `wok::wokcore::design`, `wok::woksynth::generator` — the design records.
- `plansense::clustering::dbscan` — DBSCAN over a within-radius relation,
  with its specification and laws (which points are clustered, how clusters
  are numbered, when core points share a cluster, where border points go).
- `plansense::caching::wok_cache` — the key-value store that caches plans
  under their hash.
- `plansense::fingerprint::fingerprint` — the plan hash (MD5, lower-case hex).
- `text` — decimal numerals, built one character at a time.
- `wokeval` — the price tier of a cloud and the latency class of a layout.
- `db::postgres` — the EXPLAIN text the cache is filled from.

`app/` is the server around it: HTTP endpoints, Redis, EXPLAIN parsing,
floating-point fingerprints and cost figures, randomized design search,
Gaussian mixtures and the Kubernetes operator.
