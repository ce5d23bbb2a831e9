# cleandisk

The rules of a macOS disk cleaner, verified with Verus: which files may be offered
for cleaning, how a scan merges and orders what its rules propose, how a candidate
is checked again right before it is moved to the trash, and the state that decides
when a scan, a clean or a settings change may start.

- `src/` is the verified library. Paths are handled as `Path` sees them
  (`paths`), versions of editor extensions are parsed and ordered (`version`), the
  built-in rules decide from plain values what to propose (`plugins`, `vscode`,
  `deps`), snapshots identify what a scan saw (`snapshot`, `digest`), and
  `scanner`, `cleaner`, `settings` and `commands` hold the decisions around them.
  `laws` states the properties that span several functions.
- `tests/` runs the library on concrete values.
- `app/` is the desktop application around it: file system reads, the trash, the
  settings file and the commands the front end calls. Verus does not read it.
