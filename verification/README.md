# wasmsh

The core of a shell that runs inside a host such as a browser worker. The host hands it commands of a
small protocol; the core keeps the state of the shell, decides what each command does, and says what
the host has to do next. It is written in Rust with contracts that Verus proves.

- `src/` is the verified core.
  - `state`, `vars`, `entries`, `order`: variables, scopes, arrays and attributes.
  - `pattern`, `dbl_bracket`, `globs`: globs, extended globs, regular expressions, `[[ ]]` and
    pathname expansion.
  - `stages`, `stream`, `pipeline`: the filters that run as part of the shell, from their arguments
    to their output, and the pipelines that connect them with each other and with whole commands.
  - `fd_table`, `redirect`: the streams of a command and its redirections.
  - `commands`, `words`: what the commands of the shell do, and the words they are given.
  - `runtime`, `signals`: the protocol, runs and their limits, traps, isolated runs.
  - `membrane`, `python`, `fetch`, `base64`, `external`: commands that run inside the host.
- `app/` is the shell around the core: it parses, expands, keeps files and runs commands through a
  backend, and offers the C interface that a JavaScript host drives.
- `tests/` runs the core on concrete scripts, with a small host of its own.

A contract speaks of mathematical models: texts are sequences of characters, pipes and files are
sequences of bytes, an environment is a sequence of scopes. Public proof functions named `law_...`
state what holds of several functions together.
