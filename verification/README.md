# findbar

Declarative management of the macOS Finder sidebar favorites, as a Verus
library with a command line around it.

- `src/` is the verified library. `paths` expands, resolves and compares
  paths (shell expansion through `shellexpand`, `file://` URLs,
  percent-decoding, final components); `sidebar` decides which item a removal
  takes, where an addition goes, and what a declarative sync changes and in
  which order it leaves the items; `export` writes the sidebar as a Nix
  configuration; `laws` proves what these decisions guarantee together: a
  dry run changes nothing and previews the real run; a sync never removes a
  declared item nor appends one that is present (and `paths` proves that
  percent-decoding undoes any percent-encoding); syncing an exported configuration changes nothing,
  provided each exported path resolves as its item's path does. Two laws
  describe a sync that runs to the end, under stated premises: the entries
  declare distinct paths, Finder carries out every planned change and each
  appended item reports its entry's path, and the items then have distinct
  ids. Under these, a second sync adds nothing, removes nothing and leaves
  the order as it is. If, in addition, no two items are at one declared path,
  the declared paths come first, in declared order, followed by the kept
  unmanaged items in their old order (none when they are not kept).
- `app/` is the command line (clap), the configuration files (serde, JSON and
  TOML), and the CoreServices calls that read and change the sidebar; it also
  reads the file system and the environment for the library's path facts.
- `tests/` runs the library on concrete values.
