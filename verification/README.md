# treecat

Directory tree plus selected file contents, rendered as clean text.

- `src/` is the library, verified with Verus: the configuration rules
  (defaults, config file, command line, validation), exclude-dir rules,
  size parsing and formatting, text/binary classification, file filtering
  and ordering, assembling the walked entries into a tree, and rendering
  the tree and content sections. Each public function states its result in
  its `ensures`; the `law_*` proof functions state properties that span
  functions (sorted trees, pruned trees, precedence of settings, and so on).
- `app/` is the `treecat` command around it: argument parsing (clap), the
  TOML config file (serde, toml), walking the file system (walkdir),
  reading files, the terminal and the clipboard (arboard).
- `tests/` exercises the library on concrete inputs.
