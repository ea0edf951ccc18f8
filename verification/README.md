# sonagram

The rules behind a personal music-library graph, with their contracts
proved: tag normalization and ids, song-version grouping, style
communities, the source registry, playlist files and copy-folders, the
Last.fm record rules, and the selection, review and audit rules of the
curation engine.

- `src/` — the library, verified.
- `tests/` — tests of the library on concrete values.
- `app/` — the `sonagram` command line: arguments, environment, files, the
  kglite graph and JSON, around the library.

The command line of this build runs `sources`, `config`, `policy` and
`playlist` with `--out` and/or `--copy-to`. The subcommands `scan`, `enrich`,
`build`, `profile`, `curate`, `audit`, `explain`, `playlists`, `skill`, `mcp`,
`progress`, `status` and `playlist --name` read and check their arguments
through the library, then answer that this build carries no audio-analysis
backend, scan-cache reader, graph projection, playlist store or bundled
assets, as each needs.
