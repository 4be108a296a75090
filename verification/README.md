# nexa

The verified core of Nexa, a desktop manager for a folder-based library of
images and videos (`<library>/<copyright>/<artist>/...`) with a staging folder
from which new files are distributed into the library.

`src/` holds the decisions of the application, each with a Verus contract:

- `text`, `paths`: character-level text and path models (trimming, words,
  file names, stems and extensions with `/` and `\` as separators).
- `file_helpers`: naming distributed files, numbering (`<stem> - <n>`),
  resolving name clashes in a folder, numbered groups, renumbering after a
  deletion and reordering a group.
- `natural`, `sorting`: natural order of names and the view's sort and filters.
- `query`, `display`, `layout`: search queries, card texts, byte counts,
  shortened headers and thumbnail prefetch ranges.
- `modal`, `workflow`: the metadata dialog, suggestions and chips, and the
  steps of distributing a file or saving an edit.
- `library`, `texture_cache`, `media`, `detail`, `config`: paging of query
  results, scan progress, staging filter, sidebar statistics, the bounded
  thumbnail cache, media detection and the settings.
- `release`: reading signing and public keys written in hex, signing a
  release and verifying it with Ed25519 (`ed25519-dalek`, `hex`).

`app/` holds the disk work around them (listing folders, moving and renaming
files, the settings file, the release tools' command lines), and `tests/`
runs the library on concrete values.
