# mhf_runtime

The Mod runtime of a game client: package manifests and archives, dependency
resolution, the session lifecycle of loaded Mods, the interface registry they
share, hook and patch bookkeeping, overlay input routing, and the launch data
handed to the game. The library in `src/` is written in Verus; every function
there carries a contract that Verus proves.

- `src/` — the verified library, one module per concern (`manifest`,
  `resolve`, `catalog`, `pack`, `lifecycle`, `host`, `patch`, `hooks`,
  `input`, `ime`, `texture`, `launch`, `export`, `bytes_editor`, `drafts`,
  ...). Outside crates are reached only through the trusted wrappers in
  `version` (semver) and the small std wrappers in `text`, `input` and
  `bytes_editor`. Where outside work alternates with decisions (the
  input-method broker, the byte editor, the launch), the library holds the
  decisions as steps from state and event to next state and action.
- `app/` — plain Rust around the library: reading and writing files, TOML and
  ZIP archives, process-wide registries behind locks, the host's C tables and
  the calls into Mods.
- `tests/` — tests of the library.
