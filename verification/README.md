# music_grammar

A verified library for grammar-based music composition. Grammars written in a small text
language rewrite a start symbol into a music string; the music string is composed into
tracks of timed events; chords named in a grammar derivation are measured with Lerdahl's
tonal pitch space and arranged into prolongational trees.

Every function in `src/` carries a contract that Verus proves: exact rational note values
and durations, pitches and their transposition, the grammar scanner, rewriting and random
derivation, composition by voice or by instrument, track and composition operations,
pitch-class-space distances, prolongational trees, the generation of chord grammars, the
way from a grammar's text to a finished composition, the text forms used for display, and
the LilyPond renderer, which writes a composition as a score: a staff per track, notes cut at
bar lines and into standard lengths by an exact binary expansion, and tied. Laws that hold across functions (transposing back and forth, sorting,
pruning, padding to whole measures, exact duration arithmetic, distances) are stated as
public proof functions beside the code they speak of; composing by voice proves that each
voice it writes has notes and rests that follow one another with no gap and no overlap. The calls into `num` (rational arithmetic) and `rand` (random choices)
go through a few trusted wrappers whose contracts state what those crates promise.

Layout:

- `src/` — the library, one module per subject; `lib.rs` lists them.
- `tests/` — the tests, run against the compiled library.
- `app/` — the program around the library: reading grammar files, writing LilyPond files and
  calling LilyPond, and the genetic algorithm, whose fitness is a floating-point number.
