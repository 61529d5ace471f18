# FastCull

A keyboard-driven photo culler. A folder of shots is scanned, each shot is given a tier and
tags, and an apply moves every file into the bucket of its tier, without ever overwriting or
losing one.

The library in `src/` is verified with Verus; `app/` is the program around it.

- `model`, `decisions`, `session`: shots, decisions, and the session with its undo.
- `grouping`, `exif_data`, `raw`, `scan`: which files make a shot, what their EXIF data tells,
  and in which order they are shown.
- `xmp`, `records`, `persist`: sidecars, the journal of an apply, and the record of a session.
- `plan`, `naming`, `sidecars`, `moves`, `journal`, `apply`: which file goes where and under which
  name, which sidecars are written, and the engine that does it.
- `safety`, `preservation`, `progress`, `arrival`, `layout`, `survival`: what holds of every run
  of the engine, wherever it stops.
- `preview`, `applyflow`, `dialogs`, `startup`, `launch`: an apply from its preview to its end,
  and how one that was interrupted is found and resumed.
- `input`, `controls`, `ui`, `pipeline`, `histogram`, `decode`: keys, what they do, and what is
  shown.
- `fsops`, `paths`, `text`: the disk, paths and text.

Every call to the disk goes through `FsOps`. `FsLog` carries the history of the calls and
their replies, and the contracts of what reaches the disk are statements about that history.
