# agent-term

A detached, observable subprocess runner. A command is handed to a small
manager that owns it, captures what it prints on a terminal into a rotating
log, and answers questions about it; every later call of the program reads that
log in bounded ways.

The project is a verified library with a thin program around it.

- `src/` is the library, verified with Verus: log writing with stamps and
  rotation (`pty`, `segments`), bounded reads (`tail`, `slice`, `window`),
  searching and waiting (`grep`, `wait`, `matcher`), the snapshot and the
  diagnosis (`summary`, `doctor`), the manager's replies and main loop
  (`daemon`), starting and stopping managers (`client`, `cli`), the state
  directory and its records (`state`, `meta`, `ids`), messages and signals
  (`ipc`), the bundled documentation (`skills`), and the text and line
  handling below all of them (`text`, `lines`).
- `tests/` runs the library on concrete values.
- `app/` is the program: the command line, files, sockets, the terminal, JSON.
  It performs what the library decides.

What the library takes on trust is a short list: regular expressions (`regex`),
signal numbers and an error code (`libc`), and a few functions of the standard
library. Each stands behind one item whose doc comment says what is claimed of
it.
