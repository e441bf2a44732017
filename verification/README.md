# albumsync

The decision core of a desktop tool that mirrors an Android phone's photo and video
folders to a PC over FTP, with a soft-delete trash. The library is written in Verus:
each function carries a contract that Verus proves.

Layout:

- `src/diff.rs` — comparing the phone's listing with the local index; laws that carrying
  out the diff mirrors the phone, that a synced index yields an empty diff, and that
  swapping the two listings swaps additions and retirements.
- `src/walker.rs` — which MLSD lines become backup candidates (media extensions,
  include/exclude globs), fractional `Modify=` seconds, which lines the MLSD parser can
  read without a panic, the depth-first scan state, and a law that a whole scan of a model
  of the phone's folders finds exactly the accepted files within the depth limit.
- `src/timestamp.rs` — UTC `YYYYMMDD-HHMMSS` stamps, with the calendar laws.
- `src/trash.rs` — trash paths, expiry, restore plans and collection reports.
- `src/config.rs` — settings as stored key/value text, credential keys, devices.
- `src/sync.rs`, `src/progress.rs`, `src/downloader.rs` — totals, tallies and the end of a
  run, the order in which a run hands out its work (retirements, then downloads, each item
  once; nothing more once cancelled), throttled progress, and resumable partial downloads
  with their `.part` names. The tally law says every item handed out is counted once when
  its outcome is recorded; the loop in `app/` that performs the steps and feeds the
  outcomes back (file moves, FTP, the database) is not verified.
- `src/paths.rs` — the guard that keeps a path from the phone inside the backup root.
- `src/commands.rs`, `src/error.rs`, `src/models.rs`, `src/events.rs` — command rules,
  the error type and the records exchanged with the front end.
- `app/` — the Tauri program around the library: database, credential store, FTP,
  file system and the async loop.
