# lyrictime

Timed lyrics for audio files: a verified library, and a small application around it.

- `src/` is the library. Every function has a contract over mathematical models: lines of lyrics
  as times and sequences of characters, JSON as a tree, runs and downloads as state machines.
  What holds of the library as a whole is stated in the proof functions named `law_..`.
- `app/` runs the programs, reads and writes the files, sends the requests and talks to the user
  interface; it asks the library what to do next.
- `tests/` runs the library on examples.

Two things are taken from outside without proof: that `String::push` appends a character, and what
`serde_json` reads from a text (`src/json.rs`).
