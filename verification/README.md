# recipe_search

The search logic of a recipe search page, verified with Verus.

- `src/text.rs`: splitting a query into white-space separated words.
- `src/keyed.rs`: maps with string keys (`StrMap`) and sets of strings (`TermSet`).
- `src/matcher.rs`: the skim fuzzy matcher of the `fuzzy-matcher` crate, behind
  trusted wrappers whose result is named `skim_score`, and `matcher_fits`, the
  bound on weights and text length under which its `i32` arithmetic cannot
  overflow.
- `src/search.rs`: the feed, filters, filter detection, ranking and search.
- `src/ui.rs`: what the page needs computed: checkbox selectors, filter texts,
  the filters of checked boxes, and the edits that fill a result card.
- `src/laws.rs`: properties of the library as a whole, proved.
- `app/`: the WebAssembly glue (fetching and parsing the feed, the DOM, the
  JavaScript interface); it calls the library for every decision.
