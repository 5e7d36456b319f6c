# speed_panel

A desktop panel that shows how fast ZCode generates: the speed of the call that runs, of the last
call and of the day, trends by model, the traffic of the machine, and the checkpoints that are
uploaded in the background. A guard can lock the directory of checkpoints.

- `src/` is the library, verified with Verus: the contract of a function says what it returns or
  changes, and the public `lemma_` functions state what holds of the whole. What is trusted, not
  proved, are the contracts of five small functions that call `serde_json` and the standard library
  (`value_from_text`, `plain`, `value` and `text_from_value` in `json`, `decode_units` in
  `platform`) and what `text` states of `String::push`.
- `tests/` runs the library on concrete values.
- `app/` is the program around it: database, files, processes, system calls, window and tray.

| Module | What it is about |
| --- | --- |
| `metrics`, `aggregate`, `history` | calls, speeds, the day, all time |
| `engine`, `inflight` | rows of the usage database, calls that are running |
| `trend`, `chart` | speeds by model, the curve |
| `live` | what is measured live, laid over what finished calls tell |
| `netio`, `platform`, `monitor` | counters, tables of the system, the network monitor |
| `ckpt`, `snapshot_guard`, `lock` | checkpoints, the guard, locks |
| `autostart`, `shell`, `commands`, `paths`, `update` | start, window, commands, files, updates |
| `json`, `text`, `order`, `sums` | documents, texts, sorting, sums |

A speed is kept as the exact pair of tokens and milliseconds, and the program divides them when it
shows them. A speed that is measured on a stream is a value of the program's own type.
