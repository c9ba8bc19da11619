# Sequin core

Sequin puts a photoshoot back in order before it is imported into a photo
library that sorts by capture time: it groups the styled variants of each shot
by perceptual hash, lets the user arrange groups and photos in shoot order, and
writes sequential EXIF capture times.

This crate is the verified core. Every function in `src/` carries a Verus
contract, and the laws the program relies on are proved there:

- `arrange`: the arrangement edits (move, split, merge, drop empty groups),
  finding photos by path, and resuming a saved arrangement; every edit keeps
  each photo exactly once and leaves no group empty.
- `board`: the light table's decisions (drops, keys, clicks, range
  selection, merging and splitting the selection, edits through undo).
- `editor`: arrow-key stepping, the bounded undo history, time-bar input
  parsing.
- `grouping`: union-find clustering of photos within a hash distance.
- `hashing`: hash text encoding, Hamming distance, scan parameters and the
  uniform-border trim.
- `timeline`: capture-time assignment; with positive spacings the times
  strictly increase in arrangement order.
- `apply`, `exif`, `thumbs`, `labels`, `paths`: output-folder rules, EXIF
  write bookkeeping, thumbnail cache layout and the black-and-white check,
  text shown to the user, path rules.

`app/` is the command-line program around it (`sequin group <dir>`,
`sequin apply <arrangement.json> <start> [--dry-run]`): image decoding, the
floating-point DCT hash, file and EXIF I/O, and JSON.
