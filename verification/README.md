# eatwhat

An offline meal recommender. Given a catalog of dishes and a request, it checks
both, collects the dishes that pass every hard filter (category, region, meal,
mode, theme, time, budget, required tags, excluded ingredients, recent dishes),
and draws recommendations from them without replacement.

Layout:

- `src/` — the verified library (Verus).
  - `text.rs`: label normalisation (trim, then lowercase) and label matching.
  - `order.rs`: the code-point order of strings, by which dishes are sorted.
  - `catalog.rs`: catalogs, their validity checks and the lookup of a dish by
    id, name or alias.
  - `engine.rs`: request checks, the hard filters, the recent-dish history,
    warnings, and `Session`, which keeps the bookkeeping of a draw: candidates
    ordered by id, one draw at a time, reasons, status.
  - `laws.rs`: properties of the library as a whole (a selection or
    reordering of a valid catalog's dishes stays valid; the order of the
    dishes changes neither lookups nor candidates; a request determines its
    candidates and the same draws the same response; the status and the
    counts; recent dishes held once; soft options never filter).
  - `model.rs`: the records. A dish's familiarity is held as the bit pattern
    of its binary64 value.
- `app/` — ordinary Rust: JSON documents (serde), the bundled catalog read from
  `data/core.json`, and the weighted random draw (floating point, ChaCha8) that
  picks the next candidate of a `Session`.
- `tests/` — tests of the library.
