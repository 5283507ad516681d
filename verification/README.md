# pattern_tools

Verified helpers for matching filter patterns, written in Verus:

- `bits`: single-bit tests and updates on 32-bit hashes and their population
  count, with laws relating set, clear, get and the count.
- `chars`: strings as char sequences, their UTF-8 byte offsets, and prefix and
  ASCII tests.
- `hash`: the multiplicative string hash over whole strings and char ranges.
- `tokenizer`: splitting patterns into runs of allowed chars, hashing them, and
  the sorted fuzzy signature of a pattern.
- `search`: binary search over sorted hash lists and sorting with duplicate
  removal.

Each public function's contract states its result over the spec functions of
these modules, and Verus proves the code against it; `tests/` runs the
functions on concrete values.
