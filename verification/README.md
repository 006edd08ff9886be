# cs2_binds

Generates a Counter-Strike 2 console configuration (`bind_generated.cfg`)
from the binds described in `config.json`, and reads back from the game's
console log the value a bind currently reports.

* `src/` is the verified library (Verus):
  * `text.rs` — trimming, splitting, joining and decimal notation, each with
    its definition as a spec function;
  * `model.rs` — the bind descriptions and how each kind shows a value;
  * `commands.rs` — alias names, and the first form of the generator;
  * `reader.rs` — the first form of the log reader;
  * `engine/` — the current generator (`commands.rs`), the value ladder of
    interval binds (`ladder.rs`), the log reader (`reader.rs`) and the
    errors and argument lookup (`utils.rs`).
* `app/` is the command-line tool around it: arguments, files, the JSON
  configuration and the clock.
* `tests/` runs the library on concrete configurations and logs.

Interval settings are counted in billionths inside the library: the tool
turns `0.25` from the configuration into `250000000`.
