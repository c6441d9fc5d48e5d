# md-doc-search

Offline full-text search over a Markdown corpus, with the text logic proved
in Verus.

- `src/text.rs`: characters, Unicode whitespace, trimming, UTF-8 byte
  offsets and slicing.
- `src/parse.rs`: the line scanner that splits a corpus into sections (ATX
  and Setext headings of levels 1-3, fenced code blocks, heading ancestry).
  `parse_sections` is proved equal to a line-by-line specification, and the
  emitted sections well formed.
- `src/rank.rs`: query keywords (lowercased through `str::to_lowercase`,
  optional accent folding, deduplicated), the per-section match
  measurements (capped occurrences, whole-word occurrences, heading and
  ancestry hits, exact phrase, title prefix, document frequencies) and the
  deterministic top-k selection.
- `src/render.rs`: the output layout under a character budget. Once the
  header fits, the output never exceeds the budget: a cut body carries the
  truncation marker, the line that closes a code fence left open by the cut
  counts in the budget, a block whose frame needs more than its share may use
  all that is left, and the layout stops at the first block that cannot fit
  even that.
- `app/`: the command line (clap), file reading and the floating-point score
  formula, which combines the measurements into one score per section.
