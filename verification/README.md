# adr

A command-line tool to manage architecture decision records (ADRs) kept as
markdown files next to the source code, built around a library verified with
Verus.

* `src/` is the verified library. `text` holds the string operations with
  their specifications (lines, trimming, splitting, replacing, joining); `id`
  writes and reads ADR ids; `new`, `modify` and `toc` hold what the commands
  compute; `init`, `resolver` and `paths` hold the path logic (the marker
  file and the steps of the search for it up from the working directory); `output` the
  message lines. Laws that span several operations (an ADR file is found again
  under its id, `toc` reads back what `mod` wrote, rewriting twice changes
  nothing, the overview is ordered by id and lists exactly the ADR files, gaps
  in the ids are reported, the marker search finds the nearest marker) are
  public proof functions next to the definitions they speak of.
* `app/` is the program: argument parsing, the file system, the clock and the
  terminal. It reads what a command needs, hands it to the library, and writes
  back what the library computed.
* `tests/` runs the library on concrete inputs.
