# wave_coherence

The integer and data-handling core of the wave-coherence experiments, verified
with Verus, and a command-line program around it.

## Layout

- `src/` — the verified library.
  - `musical` — greatest common divisors, ratios in lowest terms, channel
    ratios and the consonance ranking of named intervals.
  - `rng` — the deterministic xorshift64 generator and uniform indices.
  - `vocab`, `text` — character vocabularies, encodings, string helpers and
    lexicographic order.
  - `cpu_data`, `corpus` — the character-level datasets (90/10 split) and
    their batch sampling, deterministic (seeded) and random.
  - `slices`, `matrix` — row-major matrices and the entry-moving operations
    of the CPU transformer (transpose, slices, gathers, concatenation,
    causal masks).
  - `bands` — chimera vectors, sparse wave packets, selective band loading.
  - `dump_format`, `weights`, `modes` — the binary weight-dump format, which
    dumped weights the spectral analysis reads and in which order, and the
    reporting order of training modes.
  - `optimizer`, `budget` — parameter bookkeeping of the optimizer and of the
    LC layer against the MLP it replaces.
- `tests/` — tests of the library on concrete values.
- `app/` — the program: floating-point experiments, the CPU transformer and
  its training, the candle training runs, the spectral analysis of weight
  dumps, file and network I/O.

## Notes

- The character vocabulary is a sorted `Vec<char>` searched by bisection,
  with strict increase as its stated invariant, rather than a
  `BTreeSet<char>` and a `HashMap<char, usize>`. vstd's specifications of
  both collections hold only for key types whose comparison or hashing it
  models, and `char` is not one of them: with either collection, Verus
  could not prove even that a character just inserted is present.
