# byoshell

A POSIX-style shell with an HTTP API. The shell's logic is a library verified with
Verus; a thin program around it reads the terminal, runs processes and serves HTTP.

## Layout

- `src/` — the verified library.
  - `text`, `strmap`: character-sequence helpers and a string-keyed map kept sorted.
  - `token`, `lexer`, `ast`, `parser`: from a command line to a syntax tree; each
    stage is specified by a spec function (`spec_tokenize`, `spec_parse`).
  - `engine`: variable expansion (`$NAME`, `${NAME}`) and the flow of one input line.
  - `shell_context`, `registry`, `completion_registry`: the session state, the
    built-in commands, and the completion scripts of `complete`.
  - `builtins`: what each built-in command decides and prints.
  - `execution`, `external`: execution plans for a parsed line and pipelines, the
    program search path and shell quoting.
  - `autocomplete`: completion of command names, and of arguments from a completion
    script or the directory.
  - `server`: authentication, rate limiting, request parsing, JSON encoding and
    decoding, and responses of the HTTP API.
  - `cli`: start-up arguments and the `.env` file.
- `app/` — the program: the `rustyline` prompt, processes, pipes, files and sockets.
- `tests/` — tests of the library on concrete inputs.

Laws that span several functions are public proof functions named `law_*`.
