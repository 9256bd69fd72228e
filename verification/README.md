# smdbc

The verified core of a tool that finds duplicate sounds in a sound-effects
library database and marks which copy to keep.

`src/` is a Verus library: Verus proves its functions against their
contracts, except the few wrappers marked `external_body` around calls into
std and outside crates, whose contracts are trusted. Its modules:

- `bytes`, `codec`, `aiff`, `formats`, `riff`: little- and big-endian fields,
  WAV files (reading the layout, writing, sample values, channels), AIFF
  headers, the codec chosen by a file's extension, and the metadata chunks of
  WAV files (reading, writing, embedding).
- `fingerprint`, `landmarks`, `similar`, `subset`: Chromaprint fingerprints,
  landmark hashes, and the audio searches (exact, similar, subset) that mark
  records once the comparisons are made.
- `marks`, `prefs`, `records`, `order`, `dupes`, `waves`, `results`: the marks
  of a record, the preferences, the records, the order in which the copy to
  keep is chosen, the duplicate search and the groups shown to the user.
- `database`, `rows`, `queries`, `files`, `paths`, `license`, `player`, `text`: the
  database's records and SQL text, file removal paths, macOS-to-Windows path
  conversion, license keys, the audio player's command handling, and the
  string helpers the rest uses.

Each law that the library keeps is a public proof function (`lemma_...`) next
to the functions it speaks of.

`app/` is a small command-line program around the library: it reads files,
runs FFmpeg, and does the floating-point comparisons whose results the
library's searches take as arguments.
