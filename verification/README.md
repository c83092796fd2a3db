# TruthLens

Hallucination-risk analysis of AI-generated text, verified with Verus.

A passage is split into claims; each claim is scored on linguistic signals
(confidence, hedging, specificity, verifiability); the scores are composed
into a passage score (70% of the average, 30% of the worst claim), which the
shape of the confidence trajectory and, optionally, entity verification
against Wikidata move by up to ±0.15 each. Several answers to one prompt can
be compared for contradictions.

Scores are fixed-point integers: `format::SCALE` (3·10^15) stands for 1.0, so
every weight and threshold is exact and each derived value is rounded once,
by less than 4e-16.

## Layout

- `src/` — the verified library
  - `text.rs`: characters, words, trimming, ordering and number parsing
  - `format.rs`: decimal and fixed-point text
  - `patterns.rs`: regular expressions, taken from the `regex` crate
  - `claim.rs`: sentences, claims and their features
  - `scorer.rs`: claim and passage scores, with their laws
  - `trajectory.rs`: confidence trajectory patterns
  - `consistency.rs`: subject/value entities, grouping, contradictions
  - `entity.rs`: named entities, Wikidata queries and the verification modifier
  - `lib.rs`: the reports of `analyze` and `analyze_with_verification`
- `tests/` — tests on concrete values
- `app/` — the command line: arguments, standard input, coloured output,
  JSON output and the Wikidata requests
