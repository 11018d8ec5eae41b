# rhythr

An unofficial renderer that turns Rhythia replays into videos. It reads replays and never writes
them: skins, camera, overlay and encoding can be set, what was played cannot.

- `src/` is the library, verified with Verus: hit registration, the integrity check, time bases and
  mods, running scores and races, the analysis of a run, skins and their archives, the layout of
  overlay, results screen and share card, the scene, backgrounds, colour conversion, and the plan
  and the arguments of a video export.
- `tests/` runs the library.
- `app/` is what touches the machine: the graphics device, windows, files, encoder processes and
  sockets.

## Numbers

The library works in whole numbers. Reals are counted in millionths: song times in millionths of a
millisecond, places in millionths of a world unit, sizes on the screen in millionths of a pixel,
and speeds, shares, percentages, health and points in millionths. Chart times of notes are whole
milliseconds, as maps have them. `app/` converts at the edge.

## What is proved and what is trusted

Each function states what it returns for every input that it takes. The proof functions whose
names begin with `law_` state what holds beyond a single call: that attribution keeps totals, that
an even race shows no lead, that a written sound is read back, that frames leave an export in
order, and more.

Calls into other crates stand behind small functions with stated contracts: JSON
(`src/json.rs`, `src/mods.rs`, `src/extraction.rs`), zip archives (`src/rhs.rs`), pictures (`src/pictures.rs`,
`src/background.rs`), and a few functions of the standard library on text (`src/text.rs`,
`src/words.rs`, `src/exe_assets.rs`, `src/extraction.rs`).
