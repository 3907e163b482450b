# rsomics-fligner

The Fligner-Killeen test for equality of variances (`scipy.stats.fligner`),
as a library whose functions carry proved contracts, and a command-line tool
around it.

Floating-point arithmetic has no place in the proved part, so the work is
split:

- `src/` decides everything that is a question of order, equality, layout or
  refusal. Floating-point values enter as their IEEE-754 bit patterns
  (`f64::to_bits`). The order and equality used on them are defined in
  `order.rs` to be IEEE-754 `totalOrder` and IEEE-754 equality, which is what
  `f64::total_cmp` and `==` document; that these definitions agree with the
  standard library is not proved here but checked by tests on sample values.
  Likewise `text.rs` defines whitespace, trimming and splitting after
  `char::is_whitespace` and `str`, and tests compare them with the standard
  library.
  - `order`: order and equality on bit patterns; counting and summing facts
    about permutations.
  - `sort`: stable merge sort of indices, order statistics.
  - `rank`: tie-averaged ranks (`rankdata`, `method='average'`), doubled.
  - `center`: centering choice; the order statistics a median and a trimmed
    sample read.
  - `groups`: the checks on the groups and their offsets in the pooled data.
  - `text`, `layout`: trimming and splitting; the single-column and long
    (`value<TAB>group`) layouts, and how the two correspond.
- `app/` is the binary: argument parsing (clap), file reading, number
  parsing, the floating-point statistic (pairwise sums, normal scores,
  chi-squared tail) and the output (plain or a JSON envelope).

Usage:

```sh
rsomics-fligner group1.tsv group2.tsv group3.tsv
rsomics-fligner --long all.tsv --center trimmed --proportiontocut 0.1
```

Output is one tab-separated line `statistic<TAB>p`, or with `--json` a single
JSON envelope. `--quiet` and `--threads` are accepted for compatibility with
the rest of the tool family; the test prints no progress and runs on one
thread.
