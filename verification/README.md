# musee

The core of a music library organiser, verified with Verus, and the command-line
program around it.

- `src/` is the library. It decides and computes; it does not touch the file
  system, the network or other programs. Every function states in its contract
  what it returns, and Verus proves it. Proof functions named `law_...` state what
  holds of the library as a whole.
- `app/` is the program. It reads and writes files, runs the audio tools, asks the
  music database, and does what the library tells it to.
- `tests/` runs the library on concrete values.

## Layout of the library

| Modules | Subject |
| --- | --- |
| `chars`, `strings`, `numbers`, `order` | characters, texts, numbers, orders and sorting |
| `path`, `pathset`, `known`, `reserve` | paths, sets of paths, what exists, finding a free path |
| `text`, `audio` | normal forms of names, and where a track is filed |
| `comments`, `tags`, `lyric_tags`, `lyrics` | FLAC comments, tags, lyrics in tags and in files |
| `encoding`, `json`, `probe`, `transcode`, `import` | the FLAC profile, probing, transcoding, and replacing a file safely |
| `genre` | which genre an album has |
| `sidecars`, `transfer`, `fsutil`, `actions` | companion files, moves and copies, directory walks, what a plan does |
| `cli`, `commands` | the command line, and what each command plans |

Work that alternates with the file system is written as a state: `action()` says
what to do next, `advance()` takes in what came of it. Plans ask for what they do
not know: planning returns a question about a file until it has all answers.

## Commands

Dry-run is the default; `--apply` performs changes.

- `add` files tracks by artist and album. With `--encoding sonos-flac` it
  transcodes them first, and removes a source only after the valid FLAC file is in
  place. With `--unreleased` it files them as unreleased tracks.
- `dedupe` removes files whose decoded audio is in the library twice, judged by
  the MD5 in STREAMINFO. Files without one are never removed.
- `repair` moves files to where they belong, and lyrics from tags to `.lrc` files.
- `tag genre` writes one genre per album, from MusicBrainz.
