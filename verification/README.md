# xbrl_facts

Reads XBRL 2.1 instances and Inline XBRL documents (single files and
document sets) into a lossless model of contexts, units, facts and
footnotes; normalizes facts (inline formats, sign, scale, date transforms,
labels from label linkbases); and issues and checks evidence receipts that
bind a numeric claim to the exact bytes of its source.

The library in `src/` is written in Verus: each public function states
what it returns in `requires` / `ensures`, and Verus proves it.

- `text`, `strmap`: characters, strings and a sorted string-keyed map.
- `decimal`: decimals, with arithmetic and parsing done by `rust_decimal`.
- `xml`: the calls into `quick_xml`.
- `types`, `error`: the data model and errors.
- `transform`: inline number and date transforms.
- `parser`: the instance parser, as a state machine over XML events, and
  the merge of document sets.
- `normalize`: facts resolved against their contexts and units.
- `linkbase`: schema element index and label linkbases.
- `evidence`: receipts — canonical JSON bodies, SHA-256 ids, Ed25519
  attestations, verification against a source, derived receipts, batches,
  and the laws that a built receipt verifies.

`app/` is the command line tool (`parse`, `receipt`, `keygen`, `sign`,
`verify`, `inspect`): file I/O, JSON via `serde`, arguments via `clap`.
`tests/` exercises the library from outside.
