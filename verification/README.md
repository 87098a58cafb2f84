# familiar

The model layer of a desktop assistant, verified with Verus: schedules and jobs,
what goes into a prompt, reading and vetting what a model answers, memory kept in
the user's own notes, news, projects, and writing office documents.

* `src/` is the library. Every function has a contract; properties that span
  several functions are public proof functions beside them.
* `app/` is the Rust around it: files, the clock, stored formats, floating point
  and the PDF surface.
* `tests/` runs the library on concrete values.

What the library takes on trust is in three files: text that is not ASCII and a
few functions of `std` (`src/text.rs`), the machine's calendar and time zone
through `chrono` (`src/time.rs`), and reading JSON through `serde_json`
(`src/json.rs`).

Scores are handed in as the bits of floats that are not negative, which order as
the floats do. Days are numbers counted from the start of 1970. Paths are text.
