# prmt

A shell-prompt renderer: a template names modules (path, git, json, tool
versions, ...) whose output becomes styled segments of the prompt.

The library under `src/` is verified with Verus:

- `text` — characters, lines, trimming, splitting and number parsing, each
  with a specification over `Seq<char>`.
- `style` — style strings (`cyan.bold`, `red+#00ff00`), their ANSI escape
  sequences, the shell wrappers around them, and the cached `NO_COLOR` flag.
- `executor` — which modules a template needs, how one placeholder's output
  becomes a segment, and how the segments and the literal text make the
  prompt.
- `memo` — the once-per-process tool versions and the per-render git facts.
- `modules` — the path, git and json modules' logic, and that of the
  tool-version modules (bun, elixir): their markers, how their version output
  is read and how their segment is made.
- `error` — the rendering errors.

`app/` holds what runs around the library: the module interface, the
process-wide caches, and the file-system, environment and subprocess work
(gix and `git` for the git module, the current directory for the path
module, standard input for the json module). It registers the path, git and
json modules only: the tool-version modules also need the check of their
version formats and the shortening of versions, which this crate does not
carry, so `app/` looks their versions up but a template that names them is
answered with an unknown-module error.
