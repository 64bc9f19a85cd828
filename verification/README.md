# pawse

The library behind a desktop music player: its catalog decisions (matching
moved, retagged and server copies of tracks to the items the catalog already
holds, album credits, server listings, scans), album export plans and cue
sheets, the offline cache fill, the cover-art LRU, the scrobble history and
its delivery queues, playlists and likes, genres, and the Discord status
bridge. Every function in `src/` is verified with Verus against its contract;
the `law_*` proof functions state what holds across calls.

- `src/` — the verified library. Calls into `sha2`, `image` and `flate2` go
  through small trusted wrappers whose contracts are stated in their doc
  comments.
- `tests/` — tests of the library on concrete values.
- `app/` — a command-line front end and part of the SQLite and file layer:
  for server listings, album credits, genres and the scrobble history it
  reads rows, hands them to the library and writes back what the library
  decides, and it drives album moves and cache fills step by step as the
  library decides them. The rest of the database layer (folder scans, the
  track, album and artist queries) is not part of this crate. The colour
  palette of a cover, which is floating-point arithmetic, lives here too.
