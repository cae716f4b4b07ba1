# shuriken

A ninja-compatible build engine, verified with [Verus](https://github.com/verus-lang/verus).

It reads `build.ninja` manifests, shares ninja's `.ninja_log` and `.ninja_deps`
files, and follows its rebuild logic, so it can be pointed at an existing build
tree. The engine is a library: the graph is a data structure to inspect, and the
filesystem, the process launcher and the progress display are traits to replace.

## Layout

* `src/` is the library. Every item of it is verified: what a function returns
  and changes is stated in its contract.
  * `lexer`, `eval`, `parse`, `dyndep`, `depfile`, `msvc`: reading manifests and
    what compilers report;
  * `state`, `graph`, `plan`: the build graph, what is out of date in it, and
    what is to be run, in which order;
  * `build`, `engine`: the decisions of a running build, from what happened to
    what is to be done next;
  * `build_log`, `deps_log`, `hash`: the logs, byte for byte;
  * `clean`, `tools`, `cli`: the subtools and the command line;
  * `disk`, `exec`, `status`: the filesystem, commands and the display as the
    engine sees them.
* `tests/` runs the library, most of it against a filesystem in memory.
* `app/` is the command-line tool: processes, files, signals, the clock and the
  terminal around the library.

What several functions keep together is stated by the public proof functions
whose names start with `law_`: that a log reads back as what was recorded, that a
recorded command is not run again, that nothing runs before its inputs, and the
like.

## Trust

The filesystem and the display are traits with a model: what an operation of a
disk returns and leaves is a function of what the disk holds, and what a display
makes of an event is a function of what it was told before. So the contracts hold
for a disk that nothing else changes during a call of the library.

The proofs rest on Verus, on its specifications of the standard library, and on
the contracts in `src/text.rs` for three functions of `String`: `push`,
`from_utf8` and `from_utf8_lossy`. Of what the last one makes of bytes that are
not UTF-8, only that it depends on the bytes alone is assumed.
