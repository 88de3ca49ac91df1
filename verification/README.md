# portwatch

The logic of a localhost port monitor, verified with Verus.

- `src/` is the verified library: reading `netstat` and `lsof` output
  (`text`, `number`, `scanner`), the port table's text (`table`), the watch
  loop's decisions (`watcher`) and the terminal view's key handling and
  state (`ui`).
- `app/` is the program around it: the command line, running `netstat` and
  `lsof`, the async watch loop, JSON output and the terminal drawing.
- `tests/` runs the library on sample output.
